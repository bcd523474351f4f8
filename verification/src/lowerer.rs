//! The lowerer: turns a dataflow graph into one block holding a helper
//! function per interior node and a top-level function `f` that calls
//! them in dependency order.
//!
//! Per node the lowerer produces a definition sub-block, an execution
//! sub-block, the map from axis characters to `(bound, iterator)`
//! identifiers, and the identifier of the node's output store.  Loop
//! synthesis follows the node's schedule: split factors become constant
//! declarations, each `(axis, rank)` of the loop order becomes one loop,
//! and a split axis reconstructs its base iterator inside its innermost
//! loop, guarded by a partial-tile `Skip`.

use vstd::prelude::*;
use vstd::pervasive::VecAdditionalExecFns;

use crate::ast::Schedule;
use crate::block::{Arg, Block, Expr, InitVal, Statement, Type};
use crate::graph::{Graph, Node, NodeBody, NodeBodyV, NodeV};
use crate::names::{counted_name, dec_digits, dec_string, joined_name};
use crate::sem::{expr_view, exprs_view, ExprV};

verus! {

broadcast use vstd::seq::group_seq_axioms, vstd::std_specs::vec::group_vec_axioms;

/// Structural schedule errors; all precede execution.
#[derive(Clone, Copy, Debug, PartialEq, Eq, Structural)]
pub enum LowerError {
    /// The loop order names a split of an axis that was never declared
    /// with that many factors.
    MissingSplitEntry(char),
    /// The schedule names an axis that the node does not iterate.
    UnknownAxis(char),
    /// An op's arity does not match its child count.
    ArityMismatch,
}

/// The `(bound, iterator)` identifier pair of one axis.
#[derive(Debug)]
pub struct AxisIdents {
    pub bound: String,
    pub iter: String,
}

/// A map from axis characters to their identifier pairs, in first-bound
/// order, with unique keys.
#[derive(Debug)]
pub struct AxisMap(pub Vec<(char, AxisIdents)>);

/// The mathematical value of an axis map.
pub open spec fn axis_map_view(m: &AxisMap) -> Seq<(char, (Seq<char>, Seq<char>))> {
    Seq::new(m.0@.len(), |i: int| (m.0@[i].0, (m.0@[i].1.bound@, m.0@[i].1.iter@)))
}

/// Whether a key sequence has an entry for `c`.
pub open spec fn am_has(s: Seq<(char, (Seq<char>, Seq<char>))>, c: char) -> bool {
    exists|i: int| 0 <= i < s.len() && (#[trigger] s[i]).0 == c
}

/// The value bound to `c`.
pub open spec fn am_at(s: Seq<(char, (Seq<char>, Seq<char>))>, c: char) -> (Seq<char>, Seq<char>) {
    s[choose|i: int| 0 <= i < s.len() && (#[trigger] s[i]).0 == c].1
}

/// The key characters of an axis map, in binding order.
pub open spec fn am_key_seq(s: Seq<(char, (Seq<char>, Seq<char>))>) -> Seq<char> {
    Seq::new(s.len(), |i: int| s[i].0)
}

/// Unique keys.
pub open spec fn am_wf(s: Seq<(char, (Seq<char>, Seq<char>))>) -> bool {
    forall|i: int, j: int| 0 <= i < j < s.len() ==> (#[trigger] s[i]).0 != (#[trigger] s[j]).0
}

impl AxisMap {
    pub open spec fn wf(&self) -> bool {
        am_wf(axis_map_view(self))
    }

    /// An empty map.
    pub fn new() -> (r: AxisMap)
        ensures
            axis_map_view(&r).len() == 0,
            r.wf(),
    {
        AxisMap(Vec::new())
    }

    /// The identifier pair of an axis.
    pub fn get(&self, c: char) -> (r: Option<&AxisIdents>)
        requires
            self.wf(),
        ensures
            match r {
                Some(a) => am_has(axis_map_view(self), c)
                    && am_at(axis_map_view(self), c) == (a.bound@, a.iter@),
                None => !am_has(axis_map_view(self), c),
            },
    {
        let ghost s = axis_map_view(self);
        let mut i: usize = 0;
        while i < self.0.len()
            invariant
                i <= self.0@.len(),
                s == axis_map_view(self),
                am_wf(s),
                forall|j: int| 0 <= j < i ==> (#[trigger] s[j]).0 != c,
            decreases self.0@.len() - i,
        {
            if self.0[i].0 == c {
                proof {
                    assert(s[i as int].0 == c);
                }
                return Some(&self.0[i].1);
            }
            i = i + 1;
        }
        None
    }

    /// Whether the map binds an axis.
    pub fn contains(&self, c: char) -> (r: bool)
        requires
            self.wf(),
        ensures
            r == am_has(axis_map_view(self), c),
    {
        match self.get(c) {
            Some(_) => true,
            None => false,
        }
    }

    /// Binds a fresh axis.
    pub fn insert(&mut self, c: char, bound: String, iter: String)
        requires
            old(self).wf(),
            !am_has(axis_map_view(old(self)), c),
        ensures
            final(self).wf(),
            axis_map_view(final(self)) == axis_map_view(old(self)).push(
                (c, (bound@, iter@)),
            ),
    {
        let ghost pre = axis_map_view(self);
        self.0.push((c, AxisIdents { bound, iter }));
        proof {
            assert(axis_map_view(self) =~= pre.push((c, (bound@, iter@))));
        }
    }

    /// The axis characters, in binding order.
    pub fn keys(&self) -> (r: Vec<char>)
        ensures
            r@ == Seq::new(axis_map_view(self).len(), |i: int| axis_map_view(self)[i].0),
    {
        let mut r: Vec<char> = Vec::new();
        let mut i: usize = 0;
        while i < self.0.len()
            invariant
                i <= self.0@.len(),
                r@ == Seq::new(i as nat, |j: int| axis_map_view(self)[j].0),
            decreases self.0@.len() - i,
        {
            r.push(self.0[i].0);
            i = i + 1;
            proof {
                assert(r@ =~= Seq::new(i as nat, |j: int| axis_map_view(self)[j].0));
            }
        }
        proof {
            assert(r@ =~= Seq::new(
                axis_map_view(self).len(),
                |j: int| axis_map_view(self)[j].0,
            ));
        }
        r
    }
}

/// Distinct characters have distinct code points.
proof fn lemma_char_codes_differ(a: char, b: char)
    requires
        a != b,
    ensures
        a as u32 != b as u32,
{
}

/// Strictly ascending character codes.
pub open spec fn chars_sorted(s: Seq<char>) -> bool {
    forall|i: int, j: int| #![trigger s[i], s[j]]
        0 <= i < j < s.len() ==> (s[i] as u32) < (s[j] as u32)
}

/// Same members.
pub open spec fn same_char_set(a: Seq<char>, b: Seq<char>) -> bool {
    a.to_set() == b.to_set()
}

/// The unique characters of an index string in ascending order: the
/// canonical axis enumeration.
pub fn get_char_indices(index: &Vec<char>) -> (r: Vec<char>)
    ensures
        chars_sorted(r@),
        same_char_set(r@, index@),
{
    let mut r: Vec<char> = Vec::new();
    let mut i: usize = 0;
    while i < index.len()
        invariant
            i <= index@.len(),
            chars_sorted(r@),
            r@.to_set() == index@.take(i as int).to_set(),
        decreases index@.len() - i,
    {
        let c = index[i];
        proof {
            assert(index@.take(i as int + 1).drop_last() =~= index@.take(i as int));
            assert(index@.take(i as int + 1).last() == c);
            assert(index@.take(i as int + 1).to_set() =~=
                index@.take(i as int).to_set().insert(c));
        }
        // find the insertion point, or an existing occurrence
        let mut pos: usize = 0;
        let mut stop = false;
        while pos < r.len() && !stop
            invariant
                pos <= r@.len(),
                chars_sorted(r@),
                forall|j: int| 0 <= j < pos ==> ((#[trigger] r@[j]) as u32) < (c as u32),
                stop ==> pos < r@.len() && (r@[pos as int] as u32) >= (c as u32),
            decreases r@.len() - pos + (if stop { 0int } else { 1int }),
        {
            if (r[pos] as u32) >= (c as u32) {
                stop = true;
            } else {
                pos = pos + 1;
            }
        }
        let present = pos < r.len() && r[pos] == c;
        if !present {
            let ghost pre = r@;
            proof {
                if pos < r@.len() {
                    assert((pre[pos as int] as u32) >= (c as u32));
                    assert(pre[pos as int] != c);
                    lemma_char_codes_differ(pre[pos as int], c);
                }
            }
            r.insert(pos, c);
            proof {
                let now = r@;
                assert(now == pre.insert(pos as int, c));
                assert(now.len() == pre.len() + 1);
                assert(forall|j: int| 0 <= j < pos ==> now[j] == pre[j]);
                assert(now[pos as int] == c);
                assert(forall|j: int| pos < j < now.len() ==> now[j] == pre[j - 1]);
                // sortedness: entries before `pos` are below `c`; from `pos`
                // on, the old entries are above `c`
                assert(pos < pre.len() ==> (c as u32) < (pre[pos as int] as u32));
                assert forall|a: int, b: int| 0 <= a < b < now.len() implies
                    ((now[a] as u32) < (now[b] as u32)) by {
                    if a < pos && b == pos {
                        assert((pre[a] as u32) < (c as u32));
                    } else if a == pos && b > pos {
                        assert((pre[pos as int] as u32) <= (pre[b - 1] as u32)) by {
                            if pos as int != b - 1 {
                                assert(chars_sorted(pre));
                            }
                        }
                    } else if a < pos && b > pos {
                        assert((pre[a] as u32) < (c as u32));
                        assert(pos < pre.len() + 1);
                        if pos as int <= b - 1 && pos < pre.len() {
                            assert((pre[pos as int] as u32) <= (pre[b - 1] as u32)) by {
                                if pos as int != b - 1 {
                                    assert(chars_sorted(pre));
                                }
                            }
                        }
                    } else if a > pos && b > pos {
                        assert(chars_sorted(pre));
                    }
                }
                // membership: the new sequence holds the old characters and c
                assert forall|x: char| now.to_set().contains(x) implies
                    index@.take(i as int + 1).to_set().contains(x) by {
                    let j = choose|j: int| 0 <= j < now.len() && now[j] == x;
                    if j < pos {
                        assert(pre[j] == x);
                        assert(pre.to_set().contains(x));
                    } else if j == pos as int {
                        assert(x == c);
                    } else {
                        assert(pre[j - 1] == x);
                        assert(pre.to_set().contains(x));
                    }
                }
                assert forall|x: char| index@.take(i as int + 1).to_set().contains(x) implies
                    now.to_set().contains(x) by {
                    if x == c {
                        assert(now[pos as int] == c);
                        assert(now.contains(c));
                    } else {
                        assert(pre.to_set().contains(x));
                        let j = choose|j: int| 0 <= j < pre.len() && pre[j] == x;
                        if j < pos {
                            assert(now[j] == x);
                        } else {
                            assert(now[j + 1] == x);
                        }
                        assert(now.contains(x));
                    }
                }
                assert(now.to_set() =~= index@.take(i as int + 1).to_set());
            }
        } else {
            proof {
                assert(r@[pos as int] == c);
                assert(r@.contains(c));
                assert(r@.to_set() =~= index@.take(i as int + 1).to_set());
            }
        }
        i = i + 1;
    }
    proof {
        assert(index@.take(index@.len() as int) =~= index@);
    }
    r
}


/// The index-string values of a vector of identifiers.
pub open spec fn strs_view(v: &Vec<String>) -> Seq<Seq<char>> {
    Seq::new(v@.len(), |i: int| v@[i]@)
}

/// An identifier expression.
fn mk_ident(s: &String) -> (r: Expr)
    ensures
        expr_view(r) == ExprV::Ident(s@),
{
    Expr::Ident(s.clone())
}

/// A binary operator expression.
fn mk_bin(op: char, a: Expr, b: Expr) -> (r: Expr)
    ensures
        expr_view(r) == (ExprV::Op { op, inputs: seq![expr_view(a), expr_view(b)] }),
{
    let ghost av = expr_view(a);
    let ghost bv = expr_view(b);
    let mut inputs: Vec<Expr> = Vec::new();
    inputs.push(a);
    inputs.push(b);
    proof {
        crate::sem::lemma_exprs_view2(inputs@);
        assert(inputs@[0] == a && expr_view(inputs@[0]) == av);
    }
    Expr::Op { op, inputs }
}

/// The left-nested product of the bound identifiers `bs[lo .. hi]`: the
/// mirror of the inner loop of the affine builder.
pub open spec fn prod_chain(bs: Seq<Seq<char>>, lo: int, hi: int) -> ExprV
    decreases hi - lo,
{
    if hi - lo <= 1 {
        ExprV::Ident(bs[lo])
    } else {
        ExprV::Op { op: '*', inputs: seq![prod_chain(bs, lo, hi - 1), ExprV::Ident(bs[hi - 1])] }
    }
}

/// The `k`-th affine term: the iterator times the product of all later
/// bounds, or the bare iterator for the last axis.
pub open spec fn affine_term(xs: Seq<Seq<char>>, bs: Seq<Seq<char>>, k: int) -> ExprV {
    if k + 1 < bs.len() {
        ExprV::Op { op: '*', inputs: seq![ExprV::Ident(xs[k]), prod_chain(bs, k + 1, bs.len() as int)] }
    } else {
        ExprV::Ident(xs[k])
    }
}

/// The left-nested sum of the first `hi` affine terms.
pub open spec fn affine_chain(xs: Seq<Seq<char>>, bs: Seq<Seq<char>>, hi: int) -> ExprV
    decreases hi,
{
    if hi <= 1 {
        affine_term(xs, bs, 0)
    } else {
        ExprV::Op { op: '+', inputs: seq![affine_chain(xs, bs, hi - 1), affine_term(xs, bs, hi - 1)] }
    }
}

/// The affine index expression over iterator identifiers `xs` and bound
/// identifiers `bs`: zero when there is no axis.
pub open spec fn spec_affine_expr(xs: Seq<Seq<char>>, bs: Seq<Seq<char>>) -> ExprV {
    if xs.len() == 0 {
        ExprV::Int(0)
    } else {
        affine_chain(xs, bs, xs.len() as int)
    }
}

/// Builds the linearized access offset `x0*b1*...*b_{d-1} + x1*b2*...*b_{d-1}
/// + ... + x_{d-1}` over the given iterator and bound identifiers, as the
/// row-major affine index of the access.  An empty index yields the
/// literal zero.
pub fn create_affine_index(indices: &Vec<String>, bounds: &Vec<String>) -> (r: Expr)
    requires
        indices@.len() == bounds@.len(),
    ensures
        expr_view(r) == spec_affine_expr(strs_view(indices), strs_view(bounds)),
{
    let ghost xs = strs_view(indices);
    let ghost bs = strs_view(bounds);
    let d = indices.len();
    let mut sum_expr: Option<Expr> = None;
    let mut k: usize = 0;
    while k < d
        invariant
            d == indices@.len(),
            d == bounds@.len(),
            xs == strs_view(indices),
            bs == strs_view(bounds),
            k <= d,
            match sum_expr {
                Some(ref e) => k > 0 && expr_view(*e) == affine_chain(xs, bs, k as int),
                None => k == 0,
            },
        decreases d - k,
    {
        let mut product_expr: Option<Expr> = None;
        let mut m: usize = k + 1;
        while m < d
            invariant
                d == bounds@.len(),
                bs == strs_view(bounds),
                k < d,
                k + 1 <= m <= d,
                match product_expr {
                    Some(ref e) => m > k + 1 && expr_view(*e) == prod_chain(bs, k as int + 1, m as int),
                    None => m == k + 1,
                },
            decreases d - m,
        {
            let id = mk_ident(&bounds[m]);
            product_expr = Some(
                match product_expr {
                    Some(e) => mk_bin('*', e, id),
                    None => id,
                },
            );
            m = m + 1;
        }
        let partial_expr = match product_expr {
            Some(e) => mk_bin('*', mk_ident(&indices[k]), e),
            None => mk_ident(&indices[k]),
        };
        proof {
            assert(expr_view(partial_expr) == affine_term(xs, bs, k as int));
        }
        sum_expr = Some(
            match sum_expr {
                Some(e) => mk_bin('+', e, partial_expr),
                None => partial_expr,
            },
        );
        k = k + 1;
    }
    match sum_expr {
        Some(e) => e,
        None => Expr::Int(0),
    }
}


/// Appending an extent multiplies the product.
proof fn lemma_math_prod_push(s: Seq<int>, e: int)
    ensures
        crate::math::prod_of(s.push(e)) == crate::math::prod_of(s) * e,
    decreases s.len(),
{
    if s.len() == 0 {
        assert(s.push(e).skip(1) =~= Seq::<int>::empty());
        assert(crate::math::prod_of(Seq::<int>::empty()) == 1);
        assert(crate::math::prod_of(s.push(e)) == e * 1);
    } else {
        assert(s.push(e).skip(1) =~= s.skip(1).push(e));
        lemma_math_prod_push(s.skip(1), e);
        assert(s[0] * (crate::math::prod_of(s.skip(1)) * e)
            == (s[0] * crate::math::prod_of(s.skip(1))) * e) by (nonlinear_arith);
    }
}

/// The two product folds agree.
proof fn lemma_prod_forms(s: Seq<int>)
    ensures
        crate::sem::product_of(s) == crate::math::prod_of(s),
    decreases s.len(),
{
    if s.len() > 0 {
        lemma_prod_forms(s.drop_last());
        lemma_math_prod_push(s.drop_last(), s.last());
        assert(s.drop_last().push(s.last()) =~= s);
    }
}

/// The emitted product chain evaluates to the product of its bounds.
proof fn lemma_prod_chain_eval(bs: Seq<Seq<char>>, lo: int, hi: int, env: Map<Seq<char>, int>)
    requires
        0 <= lo < hi <= bs.len(),
    ensures
        crate::sem::eval_int(prod_chain(bs, lo, hi), env)
            == crate::sem::product_of(crate::sem::env_vals(env, bs).subrange(lo, hi)),
    decreases hi - lo,
{
    let vals = crate::sem::env_vals(env, bs);
    if hi - lo <= 1 {
        assert(vals.subrange(lo, hi).drop_last() =~= Seq::<int>::empty());
        assert(crate::sem::product_of(Seq::<int>::empty()) == 1);
        assert(crate::sem::product_of(vals.subrange(lo, hi))
            == 1 * crate::sem::env_val(env, bs[lo]));
    } else {
        lemma_prod_chain_eval(bs, lo, hi - 1, env);
        crate::sem::lemma_eval_bin(
            '*',
            prod_chain(bs, lo, hi - 1),
            ExprV::Ident(bs[hi - 1]),
            env,
        );
        assert(vals.subrange(lo, hi).drop_last() =~= vals.subrange(lo, hi - 1));
        assert(vals.subrange(lo, hi).last() == crate::sem::env_val(env, bs[hi - 1]));
    }
}

/// The affine sum written from term `k` on: each iterator value times the
/// product of the extents after it.
pub open spec fn affine_tail_sum(x: Seq<int>, b: Seq<int>, k: int) -> int
    decreases b.len() - k,
{
    if k < 0 || k >= x.len() || x.len() != b.len() {
        0
    } else {
        x[k] * crate::math::prod_of(b.subrange(k + 1, b.len() as int))
            + affine_tail_sum(x, b, k + 1)
    }
}

/// Shifting off the first axis shifts the tail sum.
proof fn lemma_tail_sum_shift(x: Seq<int>, b: Seq<int>, k: int)
    requires
        x.len() == b.len(),
        1 <= k <= x.len(),
    ensures
        affine_tail_sum(x, b, k) == affine_tail_sum(x.skip(1), b.skip(1), k - 1),
    decreases x.len() - k,
{
    if k < x.len() {
        lemma_tail_sum_shift(x, b, k + 1);
        assert(b.skip(1).subrange(k, b.len() - 1) =~= b.subrange(k + 1, b.len() as int));
        assert(x.skip(1)[k - 1] == x[k]);
    }
}

/// The recursive affine sum equals the term-by-term tail sum.
proof fn lemma_affine_as_terms(x: Seq<int>, b: Seq<int>)
    requires
        x.len() == b.len(),
    ensures
        crate::math::affine_sum(x, b) == affine_tail_sum(x, b, 0),
    decreases x.len(),
{
    if x.len() > 0 {
        lemma_affine_as_terms(x.skip(1), b.skip(1));
        if x.len() > 1 {
            lemma_tail_sum_shift(x, b, 1);
        }
        assert(b.subrange(1, b.len() as int) =~= b.skip(1));
    }
}

/// The emitted affine chain evaluates to the sum of the first `hi`
/// terms.
proof fn lemma_affine_chain_eval(
    xs: Seq<Seq<char>>,
    bs: Seq<Seq<char>>,
    hi: int,
    env: Map<Seq<char>, int>,
)
    requires
        xs.len() == bs.len(),
        1 <= hi <= xs.len(),
    ensures
        crate::sem::eval_int(affine_chain(xs, bs, hi), env)
            == affine_tail_sum(crate::sem::env_vals(env, xs), crate::sem::env_vals(env, bs), 0)
                - affine_tail_sum(crate::sem::env_vals(env, xs), crate::sem::env_vals(env, bs), hi),
    decreases hi,
{
    let xv = crate::sem::env_vals(env, xs);
    let bv = crate::sem::env_vals(env, bs);
    // the value of one term
    assert forall|k: int| 0 <= k < xs.len() implies
        crate::sem::eval_int(#[trigger] affine_term(xs, bs, k), env)
            == xv[k] * crate::math::prod_of(bv.subrange(k + 1, bv.len() as int)) by {
        if k + 1 < bs.len() {
            lemma_prod_chain_eval(bs, k + 1, bs.len() as int, env);
            lemma_prod_forms(bv.subrange(k + 1, bv.len() as int));
            crate::sem::lemma_eval_bin(
                '*',
                ExprV::Ident(xs[k]),
                prod_chain(bs, k + 1, bs.len() as int),
                env,
            );
        } else {
            assert(bv.subrange(k + 1, bv.len() as int) =~= Seq::<int>::empty());
            assert(crate::math::prod_of(Seq::<int>::empty()) == 1);
        }
    }
    if hi <= 1 {
        assert(affine_tail_sum(xv, bv, 0)
            == xv[0] * crate::math::prod_of(bv.subrange(1, bv.len() as int))
                + affine_tail_sum(xv, bv, 1));
    } else {
        lemma_affine_chain_eval(xs, bs, hi - 1, env);
        crate::sem::lemma_eval_bin(
            '+',
            affine_chain(xs, bs, hi - 1),
            affine_term(xs, bs, hi - 1),
            env,
        );
        assert(affine_tail_sum(xv, bv, hi - 1)
            == xv[hi - 1] * crate::math::prod_of(bv.subrange(hi, bv.len() as int))
                + affine_tail_sum(xv, bv, hi));
    }
}

/// What the affine index expression computes: under any environment the
/// emitted expression evaluates to the row-major affine offset of the
/// iterator values with respect to the bound values.
pub proof fn lemma_affine_expr_eval(
    xs: Seq<Seq<char>>,
    bs: Seq<Seq<char>>,
    env: Map<Seq<char>, int>,
)
    requires
        xs.len() == bs.len(),
    ensures
        crate::sem::eval_int(spec_affine_expr(xs, bs), env) == crate::math::affine_sum(
            crate::sem::env_vals(env, xs),
            crate::sem::env_vals(env, bs),
        ),
{
    let xv = crate::sem::env_vals(env, xs);
    let bv = crate::sem::env_vals(env, bs);
    if xs.len() == 0 {
    } else {
        lemma_affine_chain_eval(xs, bs, xs.len() as int, env);
        lemma_affine_as_terms(xv, bv);
        assert(affine_tail_sum(xv, bv, xv.len() as int) == 0);
    }
}


/// The value of a map from axes to split-factor identifier lists.
pub open spec fn sm_view(m: &Vec<(char, Vec<String>)>) -> Seq<(char, Seq<Seq<char>>)> {
    Seq::new(
        m@.len(),
        |i: int| (m@[i].0, Seq::new(m@[i].1@.len(), |j: int| m@[i].1@[j]@)),
    )
}

/// Whether the split map has an entry for `c`.
pub open spec fn sm_has(s: Seq<(char, Seq<Seq<char>>)>, c: char) -> bool {
    exists|i: int| 0 <= i < s.len() && (#[trigger] s[i]).0 == c
}

/// The identifier list bound to `c`.
pub open spec fn sm_at(s: Seq<(char, Seq<Seq<char>>)>, c: char) -> Seq<Seq<char>> {
    s[choose|i: int| 0 <= i < s.len() && (#[trigger] s[i]).0 == c].1
}

/// Unique keys.
pub open spec fn sm_wf(s: Seq<(char, Seq<Seq<char>>)>) -> bool {
    forall|i: int, j: int| 0 <= i < j < s.len() ==> (#[trigger] s[i]).0 != (#[trigger] s[j]).0
}

/// Looks up the split-factor identifiers of an axis.
fn sm_get<'a>(m: &'a Vec<(char, Vec<String>)>, c: char) -> (r: Option<&'a Vec<String>>)
    requires
        sm_wf(sm_view(m)),
    ensures
        match r {
            Some(v) => sm_has(sm_view(m), c) && strs_view(v) == sm_at(sm_view(m), c),
            None => !sm_has(sm_view(m), c),
        },
{
    let ghost sv = sm_view(m);
    let mut i: usize = 0;
    while i < m.len()
        invariant
            i <= m@.len(),
            sv == sm_view(m),
            sm_wf(sv),
            forall|j: int| 0 <= j < i ==> (#[trigger] sv[j]).0 != c,
        decreases m@.len() - i,
    {
        if m[i].0 == c {
            proof {
                assert(sv[i as int].0 == c);
                assert(strs_view(&m[i as int].1) =~= sv[i as int].1);
            }
            return Some(&m[i].1);
        }
        i = i + 1;
    }
    None
}

/// The tile-width expression: the product of the split-factor
/// identifiers.
pub open spec fn spec_tile_width(fs: Seq<Seq<char>>) -> ExprV {
    ExprV::Op { op: '*', inputs: Seq::new(fs.len(), |i: int| ExprV::Ident(fs[i])) }
}

/// The outer-loop bound of a split axis: `(bound + width - 1) / width`,
/// the tile count rounded up.
pub open spec fn spec_split_bound_expr(b: Seq<char>, fs: Seq<Seq<char>>) -> ExprV {
    ExprV::Op {
        op: '/',
        inputs: seq![
            ExprV::Op {
                op: '-',
                inputs: seq![
                    ExprV::Op { op: '+', inputs: seq![ExprV::Ident(b), spec_tile_width(fs)] },
                    ExprV::Int(1),
                ],
            },
            spec_tile_width(fs),
        ],
    }
}

/// Builds the product of the split-factor identifiers.
fn create_tile_width(factors: &Vec<String>) -> (r: Expr)
    ensures
        expr_view(r) == spec_tile_width(strs_view(factors)),
{
    let mut inputs: Vec<Expr> = Vec::new();
    let mut i: usize = 0;
    while i < factors.len()
        invariant
            i <= factors@.len(),
            inputs@.len() == i,
            exprs_view(inputs@) == Seq::new(i as nat, |j: int| ExprV::Ident(strs_view(factors)[j])),
        decreases factors@.len() - i,
    {
        let ghost pre = inputs@;
        inputs.push(mk_ident(&factors[i]));
        i = i + 1;
        proof {
            assert(inputs@.drop_last() =~= pre);
            crate::sem::lemma_exprs_view_elems(inputs@);
            assert(exprs_view(inputs@) =~=
                Seq::new(i as nat, |j: int| ExprV::Ident(strs_view(factors)[j])));
        }
    }
    proof {
        assert(exprs_view(inputs@) =~=
            Seq::new(strs_view(factors).len(), |j: int| ExprV::Ident(strs_view(factors)[j])));
    }
    Expr::Op { op: '*', inputs }
}

/// Builds the outer-loop bound of a split axis.
fn create_split_bound_expr(base_bound: &String, factors: &Vec<String>) -> (r: Expr)
    ensures
        expr_view(r) == spec_split_bound_expr(base_bound@, strs_view(factors)),
{
    let width = create_tile_width(factors);
    let width2 = create_tile_width(factors);
    let sum = mk_bin('+', mk_ident(base_bound), width);
    let numerator = mk_bin('-', sum, Expr::Int(1));
    mk_bin('/', numerator, width2)
}

/// What the split bound computes: with positive factor values it is the
/// base bound divided by the tile width, rounded up.
pub proof fn lemma_split_bound_eval(b: Seq<char>, fs: Seq<Seq<char>>, env: Map<Seq<char>, int>)
    requires
        crate::sem::product_of(crate::sem::env_vals(env, fs)) != 0,
    ensures
        crate::sem::eval_int(spec_split_bound_expr(b, fs), env) == crate::math::ceil_div(
            crate::sem::env_val(env, b),
            crate::sem::product_of(crate::sem::env_vals(env, fs)),
        ),
{
    let w = spec_tile_width(fs);
    let vals = crate::sem::env_vals(env, fs);
    let ids = Seq::new(fs.len(), |i: int| ExprV::Ident(fs[i]));
    assert(crate::sem::eval_int(w, env) == crate::sem::product_of(vals)) by {
        crate::sem::lemma_evals_int_elems(ids, env);
        assert forall|i: int| 0 <= i < fs.len() implies
            crate::sem::evals_int(ids, env)[i] == vals[i] by {
            assert(ids[i] == ExprV::Ident(fs[i]));
        }
        assert(crate::sem::evals_int(ids, env) =~= vals);
    }
    let n = crate::sem::env_val(env, b);
    let wv = crate::sem::product_of(vals);
    crate::sem::lemma_eval_bin('+', ExprV::Ident(b), w, env);
    let sum = ExprV::Op { op: '+', inputs: seq![ExprV::Ident(b), w] };
    crate::sem::lemma_eval_bin('-', sum, ExprV::Int(1), env);
    let numerator = ExprV::Op { op: '-', inputs: seq![sum, ExprV::Int(1)] };
    assert(crate::sem::eval_int(numerator, env) == n + wv - 1);
    let division = spec_split_bound_expr(b, fs);
    assert(crate::sem::eval_int(division, env) == (n + wv - 1) / wv) by {
        crate::sem::lemma_evals_int_elems(seq![numerator, w], env);
        assert(crate::sem::evals_int(seq![numerator, w], env) =~=
            seq![n + wv - 1, wv]);
    }
}


/// The identifier of the `i`-th split iterator of a base iterator.
pub open spec fn split_iter_name(base: Seq<char>, i: int) -> Seq<char> {
    base + seq!['_'] + dec_digits(i as nat)
}

/// The weight expressions of an index reconstruction: the whole tile
/// width for the base iterator, then one factor per split iterator.
pub open spec fn spec_recon_widths(fs: Seq<Seq<char>>) -> Seq<ExprV> {
    seq![spec_tile_width(fs)] + Seq::new(fs.len(), |i: int| ExprV::Ident(fs[i]))
}

/// The iterator expressions of an index reconstruction.
pub open spec fn spec_recon_iters(base: Seq<char>, n: int) -> Seq<ExprV> {
    seq![ExprV::Ident(base)] + Seq::new(n as nat, |i: int| ExprV::Ident(split_iter_name(base, i)))
}

/// The reconstructed base iterator: the weighted sum of all loops of the
/// axis family but the present one, plus the present iterator.
pub open spec fn spec_recon_expr(base: Seq<char>, fs: Seq<Seq<char>>, rank: int) -> ExprV {
    let widths = spec_recon_widths(fs).remove(rank);
    let iters = spec_recon_iters(base, fs.len() as int).remove(rank);
    let cur = spec_recon_iters(base, fs.len() as int)[rank];
    ExprV::Op {
        op: '+',
        inputs: Seq::new(
            fs.len(),
            |i: int| ExprV::Op { op: '*', inputs: seq![widths[i], iters[i]] },
        ).push(cur),
    }
}

/// Builds the statements that reconstruct a split axis's base iterator
/// inside the loop of the given rank, and the partial-tile guard that
/// abandons the iteration when the reconstructed index is out of range.
fn create_index_reconstruction_statements(
    base_iterator: &String,
    base_bound: &String,
    factors: &Vec<String>,
    rank: usize,
) -> (r: Vec<Statement>)
    requires
        rank <= factors@.len(),
    ensures
        r@.len() == 2,
        (match r@[0] {
            Statement::Declaration { ident, value, type_ } => ident@ == base_iterator@
                && type_ == Type::Int(false)
                && expr_view(value) == spec_recon_expr(
                base_iterator@,
                strs_view(factors),
                rank as int,
            ),
            _ => false,
        }),
        (match r@[1] {
            Statement::Skip { index, bound } => index@ == base_iterator@
                && bound@ == base_bound@,
            _ => false,
        }),
{
    let ghost fsv = strs_view(factors);
    let n = factors.len();
    let mut widths: Vec<Expr> = Vec::new();
    widths.push(create_tile_width(factors));
    proof {
        crate::sem::lemma_exprs_view_elems(widths@);
        assert(exprs_view(widths@) =~= spec_recon_widths(fsv).take(1));
    }
    let mut i: usize = 0;
    while i < n
        invariant
            n == factors@.len(),
            fsv == strs_view(factors),
            i <= n,
            widths@.len() == i + 1,
            exprs_view(widths@) == spec_recon_widths(fsv).take(i + 1),
        decreases n - i,
    {
        let ghost pre = widths@;
        widths.push(mk_ident(&factors[i]));
        i = i + 1;
        proof {
            assert(widths@.drop_last() =~= pre);
            crate::sem::lemma_exprs_view_elems(widths@);
            crate::sem::lemma_exprs_view_elems(pre);
            assert(exprs_view(widths@) =~= spec_recon_widths(fsv).take(i as int + 1));
        }
    }
    let mut iterators: Vec<Expr> = Vec::new();
    iterators.push(mk_ident(base_iterator));
    proof {
        crate::sem::lemma_exprs_view_elems(iterators@);
        assert(exprs_view(iterators@) =~=
            spec_recon_iters(base_iterator@, n as int).take(1));
    }
    let mut i: usize = 0;
    while i < n
        invariant
            n == factors@.len(),
            i <= n,
            iterators@.len() == i + 1,
            exprs_view(iterators@) == spec_recon_iters(base_iterator@, n as int).take(i + 1),
        decreases n - i,
    {
        let ghost pre = iterators@;
        let name = joined_name(base_iterator.as_str(), dec_string(i).as_str());
        iterators.push(Expr::Ident(name));
        i = i + 1;
        proof {
            assert(iterators@.drop_last() =~= pre);
            crate::sem::lemma_exprs_view_elems(iterators@);
            crate::sem::lemma_exprs_view_elems(pre);
            assert(exprs_view(iterators@) =~=
                spec_recon_iters(base_iterator@, n as int).take(i as int + 1));
        }
    }
    proof {
        assert(spec_recon_widths(fsv).take(n as int + 1) =~= spec_recon_widths(fsv));
        assert(spec_recon_iters(base_iterator@, n as int).take(n as int + 1) =~=
            spec_recon_iters(base_iterator@, n as int));
    }
    // remove the present loop before the weighted-sum construction
    let ghost widths_pre = widths@;
    let ghost iters_pre = iterators@;
    let current_iterator = iterators.remove(rank);
    let _removed_width = widths.remove(rank);
    proof {
        crate::sem::lemma_exprs_view_elems(widths_pre);
        crate::sem::lemma_exprs_view_elems(iters_pre);
        crate::sem::lemma_exprs_view_elems(widths@);
        crate::sem::lemma_exprs_view_elems(iterators@);
        assert(widths@ == widths_pre.remove(rank as int));
        assert(iterators@ == iters_pre.remove(rank as int));
        let sw = spec_recon_widths(fsv);
        let si = spec_recon_iters(base_iterator@, n as int);
        assert forall|j: int| 0 <= j < widths@.len() implies
            #[trigger] exprs_view(widths@)[j] == sw.remove(rank as int)[j] by {
            assert(exprs_view(widths@)[j] == expr_view(widths@[j]));
            if j < rank {
                assert(widths@[j] == widths_pre[j]);
            } else {
                assert(widths@[j] == widths_pre[j + 1]);
            }
        }
        assert forall|j: int| 0 <= j < iterators@.len() implies
            #[trigger] exprs_view(iterators@)[j] == si.remove(rank as int)[j] by {
            assert(exprs_view(iterators@)[j] == expr_view(iterators@[j]));
            if j < rank {
                assert(iterators@[j] == iters_pre[j]);
            } else {
                assert(iterators@[j] == iters_pre[j + 1]);
            }
        }
        assert(exprs_view(widths@) =~= sw.remove(rank as int));
        assert(exprs_view(iterators@) =~= si.remove(rank as int));
        assert(expr_view(current_iterator) == si[rank as int]);
    }
    let ghost wv = exprs_view(widths@);
    let ghost itv = exprs_view(iterators@);
    proof {
        crate::sem::lemma_exprs_view_elems(widths@);
        crate::sem::lemma_exprs_view_elems(iterators@);
    }
    let mut total_width: Vec<Expr> = Vec::new();
    let mut i: usize = 0;
    while i < n
        invariant
            n == factors@.len(),
            widths@.len() == n,
            iterators@.len() == n,
            wv.len() == n,
            itv.len() == n,
            forall|j: int| i <= j < n ==> expr_view(#[trigger] widths@[j]) == wv[j],
            forall|j: int| i <= j < n ==> expr_view(#[trigger] iterators@[j]) == itv[j],
            i <= n,
            total_width@.len() == i,
            exprs_view(total_width@) == Seq::new(
                i as nat,
                |j: int| ExprV::Op { op: '*', inputs: seq![wv[j], itv[j]] },
            ),
        decreases n - i,
    {
        let ghost pre = total_width@;
        let w = take_expr(&mut widths, i);
        let it = take_expr(&mut iterators, i);
        total_width.push(mk_bin('*', w, it));
        i = i + 1;
        proof {
            assert(total_width@.drop_last() =~= pre);
            crate::sem::lemma_exprs_view_elems(total_width@);
            crate::sem::lemma_exprs_view_elems(pre);
            assert(exprs_view(total_width@) =~= Seq::new(
                i as nat,
                |j: int| ExprV::Op { op: '*', inputs: seq![wv[j], itv[j]] },
            ));
        }
    }
    let ghost terms_pre = total_width@;
    total_width.push(current_iterator);
    proof {
        assert(total_width@.drop_last() =~= terms_pre);
        crate::sem::lemma_exprs_view_elems(total_width@);
        crate::sem::lemma_exprs_view_elems(terms_pre);
        assert(exprs_view(total_width@) =~= Seq::new(
            n as nat,
            |j: int| ExprV::Op { op: '*', inputs: seq![wv[j], itv[j]] },
        ).push(spec_recon_iters(base_iterator@, n as int)[rank as int]));
    }
    let reconstructed_index = Expr::Op { op: '+', inputs: total_width };
    let mut r: Vec<Statement> = Vec::new();
    r.push(Statement::Declaration {
        ident: base_iterator.clone(),
        value: reconstructed_index,
        type_: Type::Int(false),
    });
    r.push(Statement::Skip { index: base_iterator.clone(), bound: base_bound.clone() });
    r
}

/// Moves element `i` out of a vector of expressions, leaving a zero
/// literal in its place; the view of the remaining elements at other
/// positions is unchanged.
fn take_expr(v: &mut Vec<Expr>, i: usize) -> (r: Expr)
    requires
        i < old(v)@.len(),
    ensures
        final(v)@.len() == old(v)@.len(),
        expr_view(r) == expr_view(old(v)@[i as int]),
        forall|j: int| 0 <= j < final(v)@.len() && j != i ==>
            expr_view(#[trigger] final(v)@[j]) == expr_view(old(v)@[j]),
{
    let mut tmp = Expr::Int(0);
    v.set_and_swap(i, &mut tmp);
    tmp
}


/// What a single-split reconstruction computes: the outer iterator times
/// the split factor, plus the inner iterator — the pairing whose
/// coverage of the base range `lemma_tile_cover` states.
pub proof fn lemma_recon_eval_single(base: Seq<char>, f: Seq<char>, env: Map<Seq<char>, int>)
    ensures
        crate::sem::eval_int(spec_recon_expr(base, seq![f], 1), env)
            == crate::sem::env_val(env, f) * crate::sem::env_val(env, base)
                + crate::sem::env_val(env, split_iter_name(base, 0)),
{
    let fs = seq![f];
    let widths = spec_recon_widths(fs);
    let iters = spec_recon_iters(base, 1);
    assert(widths.len() == 2);
    assert(iters.len() == 2);
    let w0 = widths.remove(1);
    let it0 = iters.remove(1);
    assert(w0 =~= seq![spec_tile_width(fs)]);
    assert(it0 =~= seq![ExprV::Ident(base)]);
    let cur = iters[1];
    assert(cur == ExprV::Ident(split_iter_name(base, 0)));
    let term = ExprV::Op { op: '*', inputs: seq![w0[0], it0[0]] };
    let terms = Seq::new(1, |i: int| ExprV::Op { op: '*', inputs: seq![w0[i], it0[i]] });
    assert(terms =~= seq![term]);
    let e = spec_recon_expr(base, fs, 1);
    assert(e == (ExprV::Op { op: '+', inputs: seq![term, cur] })) by {
        assert(terms.push(cur) =~= seq![term, cur]);
    }
    // the tile width of one factor is that factor
    let wexpr = spec_tile_width(fs);
    let ids = Seq::new(1, |i: int| ExprV::Ident(fs[i]));
    assert(ids =~= seq![ExprV::Ident(f)]);
    let vf = crate::sem::env_val(env, f);
    assert(crate::sem::eval_int(wexpr, env) == vf) by {
        crate::sem::lemma_evals_int_elems(ids, env);
        assert(crate::sem::evals_int(ids, env) =~= seq![vf]);
        assert(seq![vf].drop_last() =~= Seq::<int>::empty());
        assert(crate::sem::product_of(Seq::<int>::empty()) == 1);
        assert(crate::sem::product_of(seq![vf]) == 1 * vf);
    }
    crate::sem::lemma_eval_bin('*', wexpr, ExprV::Ident(base), env);
    crate::sem::lemma_eval_bin('+', term, cur, env);
}

/// Whether a character vector holds `c`.
fn contains_char(v: &Vec<char>, c: char) -> (r: bool)
    ensures
        r == v@.contains(c),
{
    let mut i: usize = 0;
    while i < v.len()
        invariant
            i <= v@.len(),
            forall|j: int| 0 <= j < i ==> v@[j] != c,
        decreases v@.len() - i,
    {
        if v[i] == c {
            return true;
        }
        i = i + 1;
    }
    false
}

/// The index identifier of the loop `(c, rank)`: the base iterator, or
/// the split iterator of the rank below for the inner loops of a split
/// axis.
pub open spec fn loop_index_name(
    amv: Seq<(char, (Seq<char>, Seq<char>))>,
    smv: Seq<(char, Seq<Seq<char>>)>,
    c: char,
    rank: usize,
) -> Seq<char> {
    if sm_has(smv, c) && rank > 0 {
        split_iter_name(am_at(amv, c).1, rank - 1)
    } else {
        am_at(amv, c).1
    }
}

/// The bound of the loop `(c, rank)`: the axis bound for an unsplit
/// axis, the tile count rounded up for the outer loop of a split axis,
/// and the split factor for an inner loop.
pub open spec fn loop_bound_form(
    amv: Seq<(char, (Seq<char>, Seq<char>))>,
    smv: Seq<(char, Seq<Seq<char>>)>,
    c: char,
    rank: usize,
) -> ExprV {
    if !sm_has(smv, c) {
        ExprV::Ident(am_at(amv, c).0)
    } else if rank == 0 {
        spec_split_bound_expr(am_at(amv, c).0, sm_at(smv, c))
    } else {
        ExprV::Ident(sm_at(smv, c)[rank - 1])
    }
}

/// A loop-order entry is sound: its axis is bound, and an inner split
/// loop has a declared factor at its rank.
pub open spec fn order_entry_ok(
    amv: Seq<(char, (Seq<char>, Seq<char>))>,
    smv: Seq<(char, Seq<Seq<char>>)>,
    c: char,
    rank: usize,
) -> bool {
    &&& am_has(amv, c)
    &&& (sm_has(smv, c) && rank > 0 ==> rank <= sm_at(smv, c).len())
}

/// The position of the last loop of axis `c` in the order, or -1.
pub open spec fn last_pos_of(order: Seq<(char, usize)>, c: char) -> int
    decreases order.len(),
{
    if order.len() == 0 {
        -1
    } else if order.last().0 == c {
        order.len() - 1
    } else {
        last_pos_of(order.drop_last(), c)
    }
}

/// The last position carries the axis, and nothing after it does.
proof fn lemma_last_pos(order: Seq<(char, usize)>, c: char)
    ensures
        -1 <= last_pos_of(order, c) < order.len(),
        last_pos_of(order, c) >= 0 ==> {
            let lp = last_pos_of(order, c);
            lp < order.len() && order[lp].0 == c
        },
        forall|q: int| last_pos_of(order, c) < q < order.len() ==>
            (#[trigger] order[q]).0 != c,
    decreases order.len(),
{
    if order.len() > 0 && order.last().0 != c {
        lemma_last_pos(order.drop_last(), c);
        assert forall|q: int| last_pos_of(order, c) < q < order.len() implies
            (#[trigger] order[q]).0 != c by {
            if q < order.len() - 1 {
                assert(order.drop_last()[q] == order[q]);
            }
        }
    }
}

/// The reconstruction body of a split axis's innermost loop: the
/// declaration that rebuilds the base iterator, then the partial-tile
/// guard.
pub open spec fn recon_body_facts(
    body: Seq<Statement>,
    amv: Seq<(char, (Seq<char>, Seq<char>))>,
    smv: Seq<(char, Seq<Seq<char>>)>,
    c: char,
    rank: usize,
) -> bool {
    &&& body.len() == 2
    &&& (match body[0] {
        Statement::Declaration { ident, value, type_ } => ident@ == am_at(amv, c).1
            && type_ == Type::Int(false)
            && expr_view(value) == spec_recon_expr(am_at(amv, c).1, sm_at(smv, c), rank as int),
        _ => false,
    })
    &&& (match body[1] {
        Statement::Skip { index, bound } => index@ == am_at(amv, c).1
            && bound@ == am_at(amv, c).0,
        _ => false,
    })
}

/// What the `k`-th emitted loop statement is, counting from the
/// innermost: the loop of the `(n-1-k)`-th order entry, with its index
/// identifier, bound and parallel flag as the schedule dictates, and
/// the reconstruction pair in its body exactly when this is the last
/// loop of a split axis family.
pub open spec fn loop_statement_facts(
    st: Statement,
    amv: Seq<(char, (Seq<char>, Seq<char>))>,
    smv: Seq<(char, Seq<Seq<char>>)>,
    order: Seq<(char, usize)>,
    k: int,
    out_index: Seq<char>,
) -> bool {
    match st {
        Statement::Loop { index, bound, body, parallel } => {
            let c = order[order.len() - 1 - k].0;
            let rank = order[order.len() - 1 - k].1;
            &&& index@ == loop_index_name(amv, smv, c, rank)
            &&& expr_view(bound) == loop_bound_form(amv, smv, c, rank)
            &&& parallel == out_index.contains(c)
            &&& (if sm_has(smv, c) && sm_at(smv, c).len() > 0
                && order.len() - 1 - k == last_pos_of(order, c) {
                recon_body_facts(body.statements@, amv, smv, c, rank)
            } else {
                body.statements@.len() == 0
            })
        },
        _ => false,
    }
}

/// Builds the loop statements of a schedule, innermost first: one loop
/// per `(axis, rank)` of the loop order.  An unsplit axis loops to its
/// bound; the rank-zero loop of a split axis loops over whole tiles; a
/// higher rank loops to its split factor.  The innermost loop of each
/// split axis family reconstructs the base iterator and guards partial
/// tiles.  A loop is parallel exactly when its axis occurs in the output
/// index.
fn create_empty_loop_statements(
    split_idents: &Vec<(char, Vec<String>)>,
    loop_order: &Vec<(char, usize)>,
    am: &AxisMap,
    index: &Vec<char>,
) -> (r: Result<Vec<Statement>, LowerError>)
    requires
        am.wf(),
        sm_wf(sm_view(split_idents)),
    ensures
        match r {
            Ok(v) => v@.len() == loop_order@.len()
                && (forall|k: int| 0 <= k < v@.len() ==> loop_statement_facts(
                    #[trigger] v@[k],
                    axis_map_view(am),
                    sm_view(split_idents),
                    loop_order@,
                    k,
                    index@,
                )),
            Err(e) => (match e {
                LowerError::UnknownAxis(c) => !am_has(axis_map_view(am), c)
                    && (exists|p: int| 0 <= p < loop_order@.len()
                        && (#[trigger] loop_order@[p]).0 == c),
                LowerError::MissingSplitEntry(c) => sm_has(sm_view(split_idents), c)
                    && (exists|p: int| 0 <= p < loop_order@.len()
                        && (#[trigger] loop_order@[p]).0 == c
                        && loop_order@[p].1 > sm_at(sm_view(split_idents), c).len()),
                _ => false,
            }),
        },
        // success is owed whenever every order entry is sound
        (forall|p: int| 0 <= p < loop_order@.len() ==> order_entry_ok(
            axis_map_view(am),
            sm_view(split_idents),
            (#[trigger] loop_order@[p]).0,
            loop_order@[p].1,
        )) ==> (r matches Ok(_)),
{
    let ghost amv = axis_map_view(am);
    let ghost smv = sm_view(split_idents);
    let ghost order = loop_order@;
    let mut statements: Vec<Statement> = Vec::new();
    let mut done: Vec<char> = Vec::new();
    let n = loop_order.len();
    let mut t: usize = 0;
    while t < n
        invariant
            am.wf(),
            sm_wf(smv),
            amv == axis_map_view(am),
            smv == sm_view(split_idents),
            order == loop_order@,
            n == order.len(),
            t <= n,
            statements@.len() == t,
            forall|k: int| 0 <= k < t ==> loop_statement_facts(
                #[trigger] statements@[k], amv, smv, order, k, index@,
            ),
            forall|c2: char| #[trigger] done@.contains(c2) <==> (sm_has(smv, c2)
                && sm_at(smv, c2).len() > 0
                && exists|q: int| n - t <= q < n && (#[trigger] order[q]).0 == c2),
        decreases n - t,
    {
        let (char_index, rank) = loop_order[n - 1 - t];
        let ghost p = n - 1 - t;
        proof {
            assert(order[p as int].0 == char_index && order[p as int].1 == rank);
        }
        let idents = match am.get(char_index) {
            Some(a) => a,
            None => {
                return Err(LowerError::UnknownAxis(char_index));
            }
        };
        let sf_opt = sm_get(split_idents, char_index);
        let loop_index: String = match sf_opt {
            Some(_) if rank > 0 => {
                let d = dec_string(rank - 1);
                let name = joined_name(idents.iter.as_str(), d.as_str());
                proof {
                    assert(name@ =~= split_iter_name(am_at(amv, char_index).1, rank - 1));
                }
                name
            }
            _ => idents.iter.clone(),
        };
        proof {
            assert(loop_index@ == loop_index_name(amv, smv, char_index, rank));
        }
        let bound: Expr = match sf_opt {
            None => mk_ident(&idents.bound),
            Some(sf) => {
                if rank == 0 {
                    create_split_bound_expr(&idents.bound, sf)
                } else if rank - 1 < sf.len() {
                    mk_ident(&sf[rank - 1])
                } else {
                    proof {
                        assert(rank > sm_at(smv, char_index).len());
                    }
                    return Err(LowerError::MissingSplitEntry(char_index));
                }
            }
        };
        proof {
            assert(expr_view(bound) == loop_bound_form(amv, smv, char_index, rank));
        }
        let ghost pre_done = done@;
        let mut emitted: bool = false;
        let body_statements: Vec<Statement> = match sf_opt {
            Some(sf) => {
                if sf.len() > 0 && !contains_char(&done, char_index) {
                    done.push(char_index);
                    emitted = true;
                    create_index_reconstruction_statements(
                        &idents.iter,
                        &idents.bound,
                        sf,
                        rank,
                    )
                } else {
                    Vec::new()
                }
            }
            None => Vec::new(),
        };
        proof {
            // emission happens exactly at the last loop of the family
            lemma_last_pos(order, char_index);
            let lp = last_pos_of(order, char_index);
            assert(lp >= p);
            if emitted {
                assert(!pre_done.contains(char_index));
                assert(!(exists|q: int| n - t <= q < n && (#[trigger] order[q]).0 == char_index));
                if lp > p {
                    assert(order[lp].0 == char_index && n - t <= lp < n);
                    assert(false);
                }
                assert(recon_body_facts(body_statements@, amv, smv, char_index, rank));
            } else {
                if sm_has(smv, char_index) && sm_at(smv, char_index).len() > 0 {
                    assert(pre_done.contains(char_index));
                    let q = choose|q: int| n - t <= q < n && (#[trigger] order[q]).0 == char_index;
                    assert(lp != p ==> p != last_pos_of(order, char_index));
                    assert(lp >= q > p);
                }
                assert(body_statements@.len() == 0);
            }
        }
        let parallel = contains_char(index, char_index);
        statements.push(Statement::Loop {
            index: loop_index,
            bound,
            body: Block { statements: body_statements },
            parallel,
        });
        t = t + 1;
        proof {
            assert forall|k: int| 0 <= k < t implies loop_statement_facts(
                #[trigger] statements@[k], amv, smv, order, k, index@,
            ) by {
                if k < t - 1 {
                    assert(statements@[k] == statements@.subrange(0, t - 1)[k]);
                }
            }
            assert forall|c2: char| #[trigger] done@.contains(c2) implies (sm_has(smv, c2)
                && sm_at(smv, c2).len() > 0
                && exists|q: int| n - t <= q < n && (#[trigger] order[q]).0 == c2) by {
                let w = choose|w: int| 0 <= w < done@.len() && done@[w] == c2;
                if w < pre_done.len() {
                    assert(pre_done[w] == c2);
                    assert(pre_done.contains(c2));
                    let q = choose|q: int| n - (t - 1) <= q < n && (#[trigger] order[q]).0 == c2;
                    assert(n - t <= q < n && order[q].0 == c2);
                } else {
                    assert(c2 == char_index);
                    assert(n - t <= p < n && order[p as int].0 == c2);
                }
            }
            assert forall|c2: char| (sm_has(smv, c2) && sm_at(smv, c2).len() > 0
                && exists|q: int| n - t <= q < n && (#[trigger] order[q]).0 == c2) implies
                #[trigger] done@.contains(c2) by {
                let q = choose|q: int| n - t <= q < n && (#[trigger] order[q]).0 == c2;
                if q > p {
                    assert(pre_done.contains(c2));
                    let w = choose|w: int| 0 <= w < pre_done.len() && pre_done[w] == c2;
                    assert(done@[w] == c2);
                } else {
                    assert(c2 == char_index);
                    if emitted {
                        assert(done@[done@.len() - 1] == c2);
                    } else {
                        assert(pre_done.contains(c2));
                        let w = choose|w: int| 0 <= w < pre_done.len() && pre_done[w] == c2;
                        assert(done@[w] == c2);
                    }
                }
            }
        }
    }
    Ok(statements)
}

/// Wraps the innermost statement in the loop statements, first loop
/// innermost: the depth of the resulting nest is the number of loops.
fn wrap_loops(loop_statements: Vec<Statement>, innermost: Statement) -> (r: Statement)
    requires
        forall|k: int| 0 <= k < loop_statements@.len() ==>
            (#[trigger] loop_statements@[k]) matches Statement::Loop { .. },
        crate::sem::nest_depth(innermost) == 0,
    ensures
        crate::sem::nest_depth(r) == loop_statements@.len(),
{
    let ghost all = loop_statements@;
    let mut remaining = loop_statements;
    let mut stack = innermost;
    let mut t: usize = 0;
    while t < remaining.len()
        invariant
            remaining@.len() == all.len(),
            forall|k: int| t <= k < all.len() ==> #[trigger] remaining@[k] == all[k],
            forall|k: int| 0 <= k < all.len() ==>
                (#[trigger] all[k]) matches Statement::Loop { .. },
            t <= all.len(),
            crate::sem::nest_depth(stack) == t,
        decreases remaining@.len() - t,
    {
        let next = take_statement(&mut remaining, t);
        let wrapped = match next {
            Statement::Loop { index, bound, body, parallel } => {
                let mut body = body;
                body.statements.push(stack);
                Statement::Loop { index, bound, body, parallel }
            }
            other => other,
        };
        stack = wrapped;
        t = t + 1;
    }
    stack
}

/// Moves statement `t` out of a vector, leaving a placeholder return in
/// its place.
fn take_statement(v: &mut Vec<Statement>, t: usize) -> (r: Statement)
    requires
        t < old(v)@.len(),
    ensures
        final(v)@.len() == old(v)@.len(),
        r == old(v)@[t as int],
        forall|j: int| 0 <= j < final(v)@.len() && j != t ==>
            #[trigger] final(v)@[j] == old(v)@[j],
{
    let mut tmp = Statement::Return { value: Expr::Int(0) };
    v.set_and_swap(t, &mut tmp);
    tmp
}


/// Every axis of `cs` is bound in the map.
pub open spec fn am_has_all(s: Seq<(char, (Seq<char>, Seq<char>))>, cs: Seq<char>) -> bool {
    forall|i: int| 0 <= i < cs.len() ==> am_has(s, #[trigger] cs[i])
}

/// The bound identifiers of the axes of `cs`.
pub open spec fn am_bounds(s: Seq<(char, (Seq<char>, Seq<char>))>, cs: Seq<char>) -> Seq<Seq<char>> {
    Seq::new(cs.len(), |i: int| am_at(s, cs[i]).0)
}

/// The iterator identifiers of the axes of `cs`.
pub open spec fn am_iters(s: Seq<(char, (Seq<char>, Seq<char>))>, cs: Seq<char>) -> Seq<Seq<char>> {
    Seq::new(cs.len(), |i: int| am_at(s, cs[i]).1)
}

/// The linearized access of the array `store` at the iterators of its
/// index string, with respect to the bound identifiers of the map.
pub open spec fn spec_access(
    s: Seq<(char, (Seq<char>, Seq<char>))>,
    store: Seq<char>,
    cs: Seq<char>,
) -> ExprV {
    ExprV::Indexed {
        ident: store,
        index: Box::new(spec_affine_expr(am_iters(s, cs), am_bounds(s, cs))),
    }
}

/// Builds the linearized access of `store` at the axes `cs`.
fn create_access(am: &AxisMap, store: &String, cs: &Vec<char>) -> (r: Result<Expr, LowerError>)
    requires
        am.wf(),
    ensures
        match r {
            Ok(e) => am_has_all(axis_map_view(am), cs@)
                && expr_view(e) == spec_access(axis_map_view(am), store@, cs@),
            Err(e) => (e matches LowerError::UnknownAxis(c) ==> cs@.contains(c)
                && !am_has(axis_map_view(am), c))
                && (e matches LowerError::UnknownAxis(_)),
        },
{
    let ghost amv = axis_map_view(am);
    let mut iters: Vec<String> = Vec::new();
    let mut bounds: Vec<String> = Vec::new();
    let mut i: usize = 0;
    while i < cs.len()
        invariant
            am.wf(),
            amv == axis_map_view(am),
            i <= cs@.len(),
            iters@.len() == i,
            bounds@.len() == i,
            forall|j: int| 0 <= j < i ==> am_has(amv, #[trigger] cs@[j]),
            forall|j: int| 0 <= j < i ==> strs_view(&iters)[j] == am_at(amv, cs@[j]).1
                && strs_view(&bounds)[j] == am_at(amv, cs@[j]).0,
        decreases cs@.len() - i,
    {
        let c = cs[i];
        match am.get(c) {
            Some(a) => {
                let ghost ip = strs_view(&iters);
                let ghost bp = strs_view(&bounds);
                iters.push(a.iter.clone());
                bounds.push(a.bound.clone());
                proof {
                    assert(strs_view(&iters) =~= ip.push(a.iter@));
                    assert(strs_view(&bounds) =~= bp.push(a.bound@));
                }
            }
            None => {
                return Err(LowerError::UnknownAxis(c));
            }
        }
        i = i + 1;
    }
    let index_expr = create_affine_index(&iters, &bounds);
    proof {
        assert(strs_view(&iters) =~= am_iters(amv, cs@));
        assert(strs_view(&bounds) =~= am_bounds(amv, cs@));
    }
    Ok(Expr::Indexed { ident: store.clone(), index: Box::new(index_expr) })
}

/// Builds the innermost assignment of a node: the output element is
/// combined, under the node's op, with the accessed input elements; a
/// unary op reads the output element as its implicit first operand, so
/// the emitted operation is always binary.
fn create_op_statement(
    op: char,
    am: &AxisMap,
    child_store_idents: &Vec<String>,
    child_indices: &Vec<Vec<char>>,
    store_ident: &String,
    index: &Vec<char>,
) -> (r: Result<Statement, LowerError>)
    requires
        am.wf(),
        child_store_idents@.len() == child_indices@.len(),
        1 <= child_store_idents@.len() <= 2,
    ensures
        match r {
            Ok(st) => (match st {
                Statement::Assignment { left, right } => {
                    let amv = axis_map_view(am);
                    &&& expr_view(left) == spec_access(amv, store_ident@, index@)
                    &&& (match right {
                        Expr::Op { op: rop, inputs } => rop == op
                            && exprs_view(inputs@) == (if child_store_idents@.len() == 2 {
                                seq![
                                    spec_access(amv, child_store_idents@[0]@, child_indices@[0]@),
                                    spec_access(amv, child_store_idents@[1]@, child_indices@[1]@),
                                ]
                            } else {
                                seq![
                                    spec_access(amv, store_ident@, index@),
                                    spec_access(amv, child_store_idents@[0]@, child_indices@[0]@),
                                ]
                            }),
                        _ => false,
                    })
                },
                _ => false,
            }),
            Err(e) => (match e {
                LowerError::UnknownAxis(c) => !am_has(axis_map_view(am), c)
                    && (index@.contains(c) || exists|i: int|
                        0 <= i < child_indices@.len()
                        && (#[trigger] child_indices@[i])@.contains(c)),
                _ => false,
            }),
        },
        // success is owed whenever every axis of the output index and of
        // each child index is bound in the map
        (am_has_all(axis_map_view(am), index@) && (forall|i: int|
            0 <= i < child_indices@.len() ==> am_has_all(
                axis_map_view(am),
                (#[trigger] child_indices@[i])@,
            ))) ==> (r matches Ok(_)),
{
    let ghost amv = axis_map_view(am);
    let out_expr = match create_access(am, store_ident, index) {
        Ok(e) => e,
        Err(e) => {
            return Err(e);
        }
    };
    let mut in_exprs: Vec<Expr> = Vec::new();
    if child_store_idents.len() == 1 {
        let out_copy = match create_access(am, store_ident, index) {
            Ok(e) => e,
            Err(e) => {
                return Err(e);
            }
        };
        let in0 = match create_access(am, &child_store_idents[0], &child_indices[0]) {
            Ok(e) => e,
            Err(e) => {
                return Err(e);
            }
        };
        in_exprs.push(out_copy);
        in_exprs.push(in0);
        proof {
            crate::sem::lemma_exprs_view2(in_exprs@);
        }
    } else {
        let in0 = match create_access(am, &child_store_idents[0], &child_indices[0]) {
            Ok(e) => e,
            Err(e) => {
                return Err(e);
            }
        };
        let in1 = match create_access(am, &child_store_idents[1], &child_indices[1]) {
            Ok(e) => e,
            Err(e) => {
                return Err(e);
            }
        };
        in_exprs.push(in0);
        in_exprs.push(in1);
        proof {
            crate::sem::lemma_exprs_view2(in_exprs@);
        }
    }
    Ok(Statement::Assignment { left: out_expr, right: Expr::Op { op, inputs: in_exprs } })
}


/// An argument of the given type whose identifier is the given name.
pub open spec fn arg_is(a: Arg, t: Type, name: Seq<char>) -> bool {
    a.type_ == t && expr_view(a.ident) == ExprV::Ident(name)
}

/// The initial element value of a scalar op's output store.  The
/// emitted assignment is always `out = out op (inputs)`, so `*` needs a
/// one, and so does `/`: a reciprocal cell then computes one divided by
/// its input, written once.  Every other op accumulates from zero.
pub open spec fn spec_op_identity(op: char) -> InitVal {
    if op == '*' || op == '/' {
        InitVal::One
    } else {
        InitVal::Zero
    }
}

/// The initial element value of a scalar op's output store.
pub fn op_identity(op: char) -> (r: InitVal)
    ensures
        r == spec_op_identity(op),
{
    if op == '*' || op == '/' {
        InitVal::One
    } else {
        InitVal::Zero
    }
}

/// Advances a counter, saturating at the maximum.
fn bump(c: &mut usize)
    ensures
        *final(c) == if *old(c) < usize::MAX {
            *old(c) + 1
        } else {
            *old(c) as int
        },
{
    if *c < usize::MAX {
        *c = *c + 1;
    }
}

/// Translates a child's internal axis character into the consumer's
/// naming: the edge tag maps the character at position `p` of the
/// child's index to its own character at `p`; on a repeated character
/// the last position wins, and an unmapped character passes through.
fn translate_axis(child_index: &Vec<char>, tag: &Vec<char>, c: char) -> (r: char)
{
    let n = if child_index.len() < tag.len() {
        child_index.len()
    } else {
        tag.len()
    };
    let mut p: usize = n;
    while p > 0
        invariant
            p <= n,
            n <= child_index@.len(),
            n <= tag@.len(),
        decreases p,
    {
        if child_index[p - 1] == c {
            return tag[p - 1];
        }
        p = p - 1;
    }
    c
}

/// The lowerer: owns the identifier counters and the argument list of
/// the top-level function under construction.  Two lowerings never share
/// an instance, so their identifier spaces are independent.
pub struct Lowerer {
    input_args: Vec<Arg>,
    input_array_counter: usize,
    base_loop_counter: usize,
    store_counter: usize,
    split_factor_count: usize,
}

impl Lowerer {
    /// All identifier counters at zero and no arguments registered yet:
    /// the state a lowering must start from for the documented `in`,
    /// `b`, `i` and `s` numbering to begin at zero.
    pub closed spec fn fresh(&self) -> bool {
        &&& self.input_args@.len() == 0
        &&& self.input_array_counter == 0
        &&& self.base_loop_counter == 0
        &&& self.store_counter == 0
        &&& self.split_factor_count == 0
    }

    /// A fresh lowerer with all counters at zero.
    pub fn new() -> (r: Lowerer)
        ensures
            r.fresh(),
    {
        Lowerer {
            input_args: Vec::new(),
            input_array_counter: 0,
            base_loop_counter: 0,
            store_counter: 0,
            split_factor_count: 0,
        }
    }

    /// Lowers a leaf: allocate the input identifier and one
    /// `(bound, iterator)` pair per unique axis of the leaf's index, and
    /// register the array and extent arguments of `f`.  The leaf emits
    /// no statements.
    fn lower_leaf_node(&mut self, index: &Vec<char>) -> (r: (Block, Block, AxisMap, String))
        ensures
            r.2.wf(),
            r.0.statements@.len() == 0,
            r.1.statements@.len() == 0,
            chars_sorted(Seq::new(
                axis_map_view(&r.2).len(),
                |i: int| axis_map_view(&r.2)[i].0,
            )),
            same_char_set(
                Seq::new(axis_map_view(&r.2).len(), |i: int| axis_map_view(&r.2)[i].0),
                index@,
            ),
            axis_map_view(&r.2).len() == uniq_len(index@),
            // the input identifier, the argument registration on the top
            // function, and the counter advances
            r.3@ == seq!['i', 'n'] + dec_digits(old(self).input_array_counter as nat),
            final(self).input_args@.len() == old(self).input_args@.len() + 1
                + axis_map_view(&r.2).len(),
            forall|w: int| 0 <= w < old(self).input_args@.len() ==>
                #[trigger] final(self).input_args@[w] == old(self).input_args@[w],
            arg_is(
                final(self).input_args@[old(self).input_args@.len() as int],
                Type::ArrayRef(false),
                r.3@,
            ),
            old(self).input_array_counter < usize::MAX ==>
                final(self).input_array_counter == old(self).input_array_counter + 1,
            final(self).store_counter == old(self).store_counter,
            final(self).split_factor_count == old(self).split_factor_count,
            // with no counter saturation, the axis map binds the sorted
            // unique axes to consecutive fresh bound/iterator pairs, and
            // each bound is registered as an extent argument
            old(self).base_loop_counter + axis_map_view(&r.2).len() <= usize::MAX ==> {
                &&& final(self).base_loop_counter == old(self).base_loop_counter
                    + axis_map_view(&r.2).len()
                &&& (forall|j: int| 0 <= j < axis_map_view(&r.2).len() ==> {
                    let blc = old(self).base_loop_counter + j;
                    &&& (#[trigger] axis_map_view(&r.2)[j]).1.0
                        == seq!['b'] + dec_digits(blc as nat)
                    &&& axis_map_view(&r.2)[j].1.1 == seq!['i'] + dec_digits(blc as nat)
                    &&& arg_is(
                        final(self).input_args@[old(self).input_args@.len() + 1 + j],
                        Type::Int(false),
                        seq!['b'] + dec_digits(blc as nat),
                    )
                })
            },
    {
        let ghost blc0 = self.base_loop_counter as int;
        let arg_ident = counted_name("in", self.input_array_counter);
        proof {
            reveal_strlit("in");
            assert(arg_ident@ =~= seq!['i', 'n']
                + dec_digits(old(self).input_array_counter as nat));
        }
        bump(&mut self.input_array_counter);
        let ghost iac1 = self.input_array_counter;
        let ghost sc0 = self.store_counter;
        let ghost sfc0 = self.split_factor_count;

        let char_indices = get_char_indices(index);
        let mut loop_idents = AxisMap::new();
        let mut dim_args: Vec<Arg> = Vec::new();
        let mut k: usize = 0;
        while k < char_indices.len()
            invariant
                self.input_args@ == old(self).input_args@,
                self.input_array_counter == iac1,
                self.store_counter == sc0,
                self.split_factor_count == sfc0,
                k <= char_indices@.len(),
                chars_sorted(char_indices@),
                loop_idents.wf(),
                axis_map_view(&loop_idents).len() == k,
                forall|j: int| 0 <= j < k ==>
                    (#[trigger] axis_map_view(&loop_idents)[j]).0 == char_indices@[j],
                dim_args@.len() == k,
                self.base_loop_counter <= blc0 + k,
                blc0 + char_indices@.len() <= usize::MAX ==> {
                    &&& self.base_loop_counter == blc0 + k
                    &&& (forall|j: int| 0 <= j < k ==> {
                        &&& (#[trigger] axis_map_view(&loop_idents)[j]).1.0
                            == seq!['b'] + dec_digits((blc0 + j) as nat)
                        &&& axis_map_view(&loop_idents)[j].1.1
                            == seq!['i'] + dec_digits((blc0 + j) as nat)
                        &&& arg_is(
                            dim_args@[j],
                            Type::Int(false),
                            seq!['b'] + dec_digits((blc0 + j) as nat),
                        )
                    })
                },
            decreases char_indices@.len() - k,
        {
            let c = char_indices[k];
            let bound_ident = counted_name("b", self.base_loop_counter);
            let iterator_ident = counted_name("i", self.base_loop_counter);
            proof {
                reveal_strlit("b");
                reveal_strlit("i");
                assert(bound_ident@ =~= seq!['b']
                    + dec_digits(self.base_loop_counter as nat));
                assert(iterator_ident@ =~= seq!['i']
                    + dec_digits(self.base_loop_counter as nat));
            }
            bump(&mut self.base_loop_counter);
            dim_args.push(Arg {
                type_: Type::Int(false),
                ident: Expr::Ident(bound_ident.clone()),
            });
            proof {
                let amv = axis_map_view(&loop_idents);
                assert forall|j: int| 0 <= j < amv.len() implies (#[trigger] amv[j]).0 != c by {
                    assert(amv[j].0 == char_indices@[j]);
                    lemma_char_codes_differ(char_indices@[j], c);
                }
                assert(!am_has(amv, c));
            }
            loop_idents.insert(c, bound_ident, iterator_ident);
            k = k + 1;
        }
        let ghost blc1 = self.base_loop_counter;
        let ghost args0 = self.input_args@;
        self.input_args.push(Arg {
            type_: Type::ArrayRef(false),
            ident: Expr::Ident(arg_ident.clone()),
        });
        let ghost dims = dim_args@;
        let n_dims = dim_args.len();
        let mut d: usize = 0;
        while d < n_dims
            invariant
                self.input_array_counter == iac1,
                self.store_counter == sc0,
                self.split_factor_count == sfc0,
                self.base_loop_counter == blc1,
                n_dims == dim_args@.len(),
                dim_args@.len() == dims.len(),
                forall|j: int| d <= j < dims.len() ==> #[trigger] dim_args@[j] == dims[j],
                d <= n_dims,
                self.input_args@.len() == args0.len() + 1 + d,
                forall|w: int| 0 <= w < args0.len() ==>
                    #[trigger] self.input_args@[w] == args0[w],
                self.input_args@[args0.len() as int].type_ == Type::ArrayRef(false),
                expr_view(self.input_args@[args0.len() as int].ident)
                    == ExprV::Ident(arg_ident@),
                forall|j: int| 0 <= j < d ==>
                    #[trigger] self.input_args@[args0.len() + 1 + j] == dims[j],
            decreases n_dims - d,
        {
            let a = take_arg(&mut dim_args, d);
            self.input_args.push(a);
            d = d + 1;
        }
        proof {
            let keys = Seq::new(
                axis_map_view(&loop_idents).len(),
                |i: int| axis_map_view(&loop_idents)[i].0,
            );
            assert(keys =~= char_indices@);
            // the sorted unique axes count the distinct characters
            assert(char_indices@.no_duplicates()) by {
                assert forall|a: int, b: int| 0 <= a < char_indices@.len()
                    && 0 <= b < char_indices@.len() && a != b implies
                    char_indices@[a] != char_indices@[b] by {
                    if a < b {
                        assert((char_indices@[a] as u32) < (char_indices@[b] as u32));
                    } else {
                        assert((char_indices@[b] as u32) < (char_indices@[a] as u32));
                    }
                }
            }
            char_indices@.unique_seq_to_set();
        }
        (Block::empty(), Block::empty(), loop_idents, arg_ident)
    }
}

/// Moves argument `t` out of a vector, leaving a placeholder.
fn take_arg(v: &mut Vec<Arg>, t: usize) -> (r: Arg)
    requires
        t < old(v)@.len(),
    ensures
        final(v)@.len() == old(v)@.len(),
        r == old(v)@[t as int],
        forall|j: int| 0 <= j < final(v)@.len() && j != t ==>
            #[trigger] final(v)@[j] == old(v)@[j],
{
    let mut tmp = Arg { type_: Type::Int(false), ident: Expr::Int(0) };
    v.set_and_swap(t, &mut tmp);
    tmp
}


/// Whether the loop order names an axis at any rank.
pub open spec fn lo_mentions(lo: Seq<(char, usize)>, c: char) -> bool {
    exists|i: int| 0 <= i < lo.len() && (#[trigger] lo[i]).0 == c
}

/// The axes of `axes` that the loop order does not mention, in order.
pub open spec fn spec_missing(lo: Seq<(char, usize)>, axes: Seq<char>) -> Seq<char>
    decreases axes.len(),
{
    if axes.len() == 0 {
        Seq::empty()
    } else {
        spec_missing(lo, axes.drop_last()) + (if lo_mentions(lo, axes.last()) {
            Seq::empty()
        } else {
            seq![axes.last()]
        })
    }
}

/// A loop order that mentions every axis leaves nothing missing.
proof fn lemma_missing_all_mentioned(lo: Seq<(char, usize)>, axes: Seq<char>)
    requires
        forall|k: int| 0 <= k < axes.len() ==> lo_mentions(lo, #[trigger] axes[k]),
    ensures
        spec_missing(lo, axes).len() == 0,
    decreases axes.len(),
{
    if axes.len() > 0 {
        assert(forall|k: int| 0 <= k < axes.drop_last().len() ==>
            lo_mentions(lo, #[trigger] axes.drop_last()[k]));
        lemma_missing_all_mentioned(lo, axes.drop_last());
    }
}

/// An empty loop order misses every axis.
proof fn lemma_missing_empty_order(lo: Seq<(char, usize)>, axes: Seq<char>)
    requires
        lo.len() == 0,
    ensures
        spec_missing(lo, axes).len() == axes.len(),
    decreases axes.len(),
{
    if axes.len() > 0 {
        lemma_missing_empty_order(lo, axes.drop_last());
    }
}

/// Whether the loop order names an axis.
fn mentions(lo: &Vec<(char, usize)>, c: char) -> (r: bool)
    ensures
        r == lo_mentions(lo@, c),
{
    let mut i: usize = 0;
    while i < lo.len()
        invariant
            i <= lo@.len(),
            forall|j: int| 0 <= j < i ==> (#[trigger] lo@[j]).0 != c,
        decreases lo@.len() - i,
    {
        if lo[i].0 == c {
            return true;
        }
        i = i + 1;
    }
    false
}

/// The facts of an interior node's emitted helper function: it is named
/// after the store, its body is non-empty, and the loop nest at the end
/// of its body has one loop per resolved schedule entry — the given
/// loop-order entries plus one default loop per bound axis the order
/// does not mention.
pub open spec fn interior_helper_facts(
    body_v: NodeBodyV,
    def_last: Statement,
    amv: Seq<(char, (Seq<char>, Seq<char>))>,
    store: Seq<char>,
) -> bool {
    match def_last {
        Statement::Function { ident, args, body } => {
            &&& ident@ == seq!['_'] + store
            &&& body.statements@.len() >= 1
            &&& (match body_v {
                NodeBodyV::Interior { schedule, .. } => {
                    let keys = am_key_seq(amv);
                    let depth = crate::sem::nest_depth(body.statements@.last()) as int;
                    &&& depth >= schedule.loop_order.len()
                    &&& (schedule.loop_order.len() == 0 ==> depth == keys.len())
                    &&& ((forall|k: int| 0 <= k < keys.len() ==>
                        lo_mentions(schedule.loop_order, #[trigger] keys[k]))
                        ==> depth == schedule.loop_order.len())
                },
                _ => false,
            })
        },
        _ => false,
    }
}

/// The helper function's body is split-factor declarations followed by
/// one final statement, the loop nest.
pub open spec fn helper_body_decls(def_last: Statement) -> bool {
    match def_last {
        Statement::Function { body, .. } => forall|w: int|
            0 <= w < body.statements@.len() - 1 ==> (match #[trigger] body.statements@[w] {
                Statement::Declaration { value, type_, .. } => type_ == Type::Int(false)
                    && (value matches Expr::Int(_)),
                _ => false,
            }),
        _ => false,
    }
}

/// An empty loop order is the untiled default: the helper body is the
/// bare loop nest, with no split-factor declarations.
pub open spec fn helper_body_untiled(body_v: NodeBodyV, def_last: Statement) -> bool {
    match body_v {
        NodeBodyV::Interior { schedule, .. } => schedule.loop_order.len() == 0 ==> (match
            def_last {
            Statement::Function { body, .. } => body.statements@.len() == 1,
            _ => false,
        }),
        _ => false,
    }
}

/// The execution block of a node ends with the call of its helper; away
/// from the root the output allocation stands directly before the call,
/// initialized with the op's identity and shaped by the bound of each
/// output axis, in index order.
pub open spec fn exec_block_facts(
    body_v: NodeBodyV,
    exec: Seq<Statement>,
    amv: Seq<(char, (Seq<char>, Seq<char>))>,
    store: Seq<char>,
    out_index: Seq<char>,
    root: bool,
) -> bool {
    &&& exec.len() >= 1
    &&& (match exec.last() {
        Statement::Call { ident, .. } => ident@ == seq!['_'] + store,
        _ => false,
    })
    &&& (root ==> store == seq!['o', 'u', 't'])
    &&& (!root ==> store.len() > 0 && store[0] == 's')
    &&& (!root ==> exec.len() >= 2 && (match exec[exec.len() - 2] {
        Statement::Declaration { ident, value, type_ } => ident@ == store
            && type_ == Type::Array(true)
            && (match value {
                Expr::Alloc { initial_value, shape } => {
                    &&& (match body_v {
                        NodeBodyV::Interior { op, .. } => initial_value
                            == spec_op_identity(op),
                        _ => false,
                    })
                    &&& Seq::new(shape@.len(), |w: int| shape@[w]@) == Seq::new(
                        out_index.len(),
                        |w: int| am_at(amv, out_index[w]).0,
                    )
                },
                _ => false,
            }),
        _ => false,
    }))
}

/// The number of distinct axes of an index string.
pub open spec fn uniq_len(s: Seq<char>) -> int {
    s.to_set().len() as int
}

/// The arguments a run of input slots contributes to the top function:
/// one array reference plus one extent per distinct axis, per slot.
pub open spec fn slots_weight(nodes: Seq<NodeV>, ids: Seq<int>) -> int
    decreases ids.len(),
{
    if ids.len() == 0 {
        0
    } else {
        (if 0 <= ids[0] < nodes.len() {
            1 + uniq_len(nodes[ids[0]].index)
        } else {
            0
        }) + slots_weight(nodes, ids.skip(1))
    }
}

/// Slot weights are non-negative.
proof fn lemma_slots_weight_nonneg(nodes: Seq<NodeV>, ids: Seq<int>)
    ensures
        slots_weight(nodes, ids) >= 0,
    decreases ids.len(),
{
    if ids.len() > 0 {
        lemma_slots_weight_nonneg(nodes, ids.skip(1));
    }
}

/// Slot weights add up over concatenation.
proof fn lemma_slots_weight_concat(nodes: Seq<NodeV>, a: Seq<int>, b: Seq<int>)
    ensures
        slots_weight(nodes, a + b) == slots_weight(nodes, a) + slots_weight(nodes, b),
    decreases a.len(),
{
    if a.len() == 0 {
        assert(a + b =~= b);
    } else {
        assert((a + b).skip(1) =~= a.skip(1) + b);
        assert((a + b)[0] == a[0]);
        lemma_slots_weight_concat(nodes, a.skip(1), b);
    }
}

/// Appends the statements of `src` to `dst` in order.
fn append_statements(dst: &mut Vec<Statement>, src: Vec<Statement>)
    ensures
        final(dst)@ == old(dst)@ + src@,
{
    let ghost srcv = src@;
    let mut src = src;
    let n = src.len();
    let mut t: usize = 0;
    while t < n
        invariant
            n == src@.len(),
            src@.len() == srcv.len(),
            forall|j: int| t <= j < n ==> #[trigger] src@[j] == srcv[j],
            t <= n,
            dst@ == old(dst)@ + srcv.take(t as int),
        decreases n - t,
    {
        let st = take_statement(&mut src, t);
        dst.push(st);
        t = t + 1;
        proof {
            assert(old(dst)@ + srcv.take(t as int) =~=
                (old(dst)@ + srcv.take(t as int - 1)).push(srcv[t as int - 1]));
        }
    }
    proof {
        assert(srcv.take(n as int) =~= srcv);
    }
}

/// Moves entry `t` out of an axis map's backing vector, leaving a
/// placeholder entry with the same key.
fn take_axis_entry(v: &mut Vec<(char, AxisIdents)>, t: usize) -> (r: (char, AxisIdents))
    requires
        t < old(v)@.len(),
    ensures
        final(v)@.len() == old(v)@.len(),
        r.0 == old(v)@[t as int].0,
        r.1.bound@ == old(v)@[t as int].1.bound@,
        r.1.iter@ == old(v)@[t as int].1.iter@,
{
    let key = v[t].0;
    let mut tmp = (key, AxisIdents { bound: String::new(), iter: String::new() });
    v.set_and_swap(t, &mut tmp);
    tmp
}

impl Lowerer {
    /// Lowers an interior node: lower the children, merge their axis
    /// maps through this node's edge tags with the first binding of an
    /// axis winning, then emit a helper function that declares the
    /// split factors and runs the scheduled loop nest around the
    /// innermost assignment, and an execution block that allocates the
    /// output store (except at the root) and calls the helper.
    ///
    /// The emitted loop nest has exactly one loop per entry of the loop
    /// order; an empty loop order defaults to one loop per bound axis in
    /// canonical order.
    #[verifier::rlimit(60)]
    #[verifier::spinoff_prover]
    fn lower_interior_node(
        &mut self,
        g: &Graph,
        id: usize,
        root: bool,
    ) -> (r: Result<(Block, Block, AxisMap, String), LowerError>)
        requires
            g@.wf(),
            (id as int) < g@.nodes.len(),
            g@.nodes[id as int].children.len() > 0,
        ensures
            match r {
                Ok(out) => {
                    &&& out.2.wf()
                    &&& out.0.statements@.len() >= 1
                    &&& interior_helper_facts(
                        g@.nodes[id as int].body,
                        out.0.statements@.last(),
                        axis_map_view(&out.2),
                        out.3@,
                    )
                    // the definition block holds helper functions only
                    &&& (forall|w: int| 0 <= w < out.0.statements@.len() ==>
                        (#[trigger] out.0.statements@[w]) matches Statement::Function { .. })
                    // the helper's body is its split-factor declarations
                    // followed by the loop nest; the untiled default has
                    // no declarations
                    &&& helper_body_decls(out.0.statements@.last())
                    &&& helper_body_untiled(
                        g@.nodes[id as int].body,
                        out.0.statements@.last(),
                    )
                    // the execution block ends with the call of the
                    // helper; away from the root the output allocation
                    // stands directly before it
                    &&& exec_block_facts(
                        g@.nodes[id as int].body,
                        out.1.statements@,
                        axis_map_view(&out.2),
                        out.3@,
                        g@.nodes[id as int].index,
                        root,
                    )
                    &&& final(self).input_args@.len() == old(self).input_args@.len()
                        + slots_weight(
                            g@.nodes,
                            crate::graph::leaves_of(g@.nodes, id as int),
                        )
                        + (if root { 1 + uniq_len(g@.nodes[id as int].index) } else { 0 })
                    &&& (forall|w: int| 0 <= w < old(self).input_args@.len() ==>
                        #[trigger] final(self).input_args@[w]
                            == old(self).input_args@[w])
                },
                Err(e) => e matches LowerError::UnknownAxis(_)
                    || e matches LowerError::MissingSplitEntry(_),
            },
        decreases id, 1int,
    {
        let node = &g.nodes[id];
        let (op, schedule) = match &node.body {
            NodeBody::Interior { op, schedule, .. } => (*op, schedule),
            NodeBody::Leaf => {
                // a leaf has no children, and this node has some
                proof {
                    assert(crate::graph::node_wf(g@.nodes, id as int));
                    assert(false);
                }
                return Err(LowerError::ArityMismatch);
            }
        };
        proof {
            assert(crate::graph::node_wf(g@.nodes, id as int));
        }

        // lower the children and merge their axis maps
        let mut def_statements: Vec<Statement> = Vec::new();
        let mut exec_statements: Vec<Statement> = Vec::new();
        let mut loop_idents = AxisMap::new();
        let mut child_store_idents: Vec<String> = Vec::new();
        let mut child_tags: Vec<Vec<char>> = Vec::new();
        let n_children = node.children.len();
        let mut k: usize = 0;
        while k < n_children
            invariant
                g@.wf(),
                (id as int) < g@.nodes.len(),
                node == &g.nodes@[id as int],
                n_children == node.children@.len(),
                k <= n_children,
                loop_idents.wf(),
                child_store_idents@.len() == k,
                child_tags@.len() == k,
                forall|j: int| 0 <= j < k ==>
                    (#[trigger] child_tags@[j])@ == node.children@[j].1@,
                forall|w: int| 0 <= w < def_statements@.len() ==>
                    (#[trigger] def_statements@[w]) matches Statement::Function { .. },
                self.input_args@.len() == old(self).input_args@.len() + slots_weight(
                    g@.nodes,
                    crate::graph::leaves_of_children(
                        g@.nodes,
                        g@.nodes[id as int].children.take(k as int),
                        id as int,
                    ),
                ),
                forall|w: int| 0 <= w < old(self).input_args@.len() ==>
                    #[trigger] self.input_args@[w] == old(self).input_args@[w],
            decreases n_children - k,
        {
            proof {
                assert(crate::graph::node_wf(g@.nodes, id as int));
                assert(g@.nodes[id as int].children[k as int].0 < id);
                assert(g@.nodes[id as int].children[k as int].0 ==
                    node.children@[k as int].0 as int);
            }
            let child_id = node.children[k].0;
            let ghost pre_args = self.input_args@;
            let (child_def, child_exec, child_am, child_store) =
                match self.lower_node(g, child_id, false) {
                    Ok(t) => t,
                    Err(e) => {
                        return Err(e);
                    }
                };
            proof {
                lemma_slots_weight_nonneg(
                    g@.nodes,
                    crate::graph::leaves_of_children(
                        g@.nodes,
                        g@.nodes[id as int].children.take(k as int),
                        id as int,
                    ),
                );
                assert forall|w: int| 0 <= w < old(self).input_args@.len() implies
                    #[trigger] self.input_args@[w] == old(self).input_args@[w] by {
                    assert(self.input_args@[w] == pre_args[w]);
                }
            }
            append_statements(&mut def_statements, child_def.statements);
            append_statements(&mut exec_statements, child_exec.statements);
            // translate the child's axes through the edge tag; the first
            // binding of an axis wins
            let child_index = &g.nodes[child_id].index;
            let tag = &node.children[k].1;
            let mut child_am_vec = child_am.0;
            let n_entries = child_am_vec.len();
            let mut e: usize = 0;
            while e < n_entries
                invariant
                    n_entries == child_am_vec@.len(),
                    e <= n_entries,
                    loop_idents.wf(),
                decreases n_entries - e,
            {
                let (c, idents) = take_axis_entry(&mut child_am_vec, e);
                let tc = translate_axis(child_index, tag, c);
                if !loop_idents.contains(tc) {
                    loop_idents.insert(tc, idents.bound, idents.iter);
                }
                e = e + 1;
            }
            child_store_idents.push(child_store);
            child_tags.push(crate::graph::clone_chars(tag));
            k = k + 1;
            proof {
                let cs = g@.nodes[id as int].children;
                crate::graph::lemma_leaves_children_push(
                    g@.nodes,
                    cs.take(k as int - 1),
                    cs[k as int - 1],
                    id as int,
                );
                assert(cs.take(k as int - 1).push(cs[k as int - 1]) =~= cs.take(k as int));
                lemma_slots_weight_concat(
                    g@.nodes,
                    crate::graph::leaves_of_children(g@.nodes, cs.take(k as int - 1), id as int),
                    crate::graph::leaves_of(g@.nodes, cs[k as int - 1].0),
                );
            }
        }
        proof {
            let cs = g@.nodes[id as int].children;
            assert(cs.take(n_children as int) =~= cs);
        }

        // the output store
        let store_ident = if root {
            let mut s = String::new();
            s.append("out");
            proof {
                reveal_strlit("out");
                assert(s@ =~= seq!['o', 'u', 't']);
            }
            s
        } else {
            let s = counted_name("s", self.store_counter);
            bump(&mut self.store_counter);
            proof {
                reveal_strlit("s");
                assert(s@.len() > 0 && s@[0] == 's');
            }
            s
        };

        let keys = loop_idents.keys();
        let all_char_indices = get_char_indices(&keys);
        let ghost args_mid = self.input_args@;
        proof {
            // the axis map's keys are distinct, and so are the sorted
            // unique characters, so the two have equal length
            let kv = keys@;
            let av = all_char_indices@;
            assert(kv =~= am_key_seq(axis_map_view(&loop_idents)));
            assert(kv.no_duplicates()) by {
                assert forall|i: int, j: int| 0 <= i < kv.len() && 0 <= j < kv.len() && i != j
                    implies kv[i] != kv[j] by {
                    assert(kv[i] == axis_map_view(&loop_idents)[i].0);
                    assert(kv[j] == axis_map_view(&loop_idents)[j].0);
                }
            }
            assert(av.no_duplicates()) by {
                assert forall|i: int, j: int| 0 <= i < av.len() && 0 <= j < av.len() && i != j
                    implies av[i] != av[j] by {
                    if i < j {
                        assert((av[i] as u32) < (av[j] as u32));
                    } else {
                        assert((av[j] as u32) < (av[i] as u32));
                    }
                }
            }
            kv.unique_seq_to_set();
            av.unique_seq_to_set();
            assert(av.len() == kv.len());
            assert(kv.len() == axis_map_view(&loop_idents).len());
        }

        // resolve the schedule: the given loop order, then one default
        // base loop, innermost and in canonical order, for every bound
        // axis the order does not mention; an empty order thus becomes
        // one base loop per axis
        let mut resolved_order: Vec<(char, usize)> = Vec::new();
        let mut a: usize = 0;
        while a < schedule.loop_order.len()
            invariant
                a <= schedule.loop_order@.len(),
                resolved_order@.len() == a,
                node == &g.nodes@[id as int],
            decreases schedule.loop_order@.len() - a,
        {
            resolved_order.push(schedule.loop_order[a]);
            a = a + 1;
        }
        let mut a: usize = 0;
        while a < all_char_indices.len()
            invariant
                a <= all_char_indices@.len(),
                node == &g.nodes@[id as int],
                resolved_order@.len() == schedule.loop_order@.len()
                    + spec_missing(schedule.loop_order@, all_char_indices@.take(a as int)).len(),
            decreases all_char_indices@.len() - a,
        {
            let c = all_char_indices[a];
            if !mentions(&schedule.loop_order, c) {
                resolved_order.push((c, 0));
            }
            a = a + 1;
            proof {
                assert(all_char_indices@.take(a as int).drop_last() =~=
                    all_char_indices@.take(a as int - 1));
            }
        }
        proof {
            assert(all_char_indices@.take(all_char_indices@.len() as int) =~=
                all_char_indices@);
        }
        let ghost n_loops: int = schedule.loop_order@.len() as int
            + spec_missing(schedule.loop_order@, all_char_indices@).len() as int;

        // split-factor identifiers and their declarations; an empty
        // loop order means the untiled default, so split entries are
        // ignored and no factor is declared
        let mut split_idents: Vec<(char, Vec<String>)> = Vec::new();
        let mut split_decls: Vec<Statement> = Vec::new();
        let n_splits = if schedule.loop_order.len() == 0 {
            0
        } else {
            schedule.splits.0.len()
        };
        let mut sp: usize = 0;
        while sp < n_splits
            invariant
                node == &g.nodes@[id as int],
                n_splits <= schedule.splits.0@.len(),
                sp <= n_splits,
                loop_idents.wf(),
                self.input_args@ == args_mid,
                split_idents@.len() == sp,
                forall|j: int| 0 <= j < sp ==>
                    (#[trigger] split_idents@[j]).0 == schedule.splits.0@[j].0,
                crate::graph::splits_v_wf(schedule@.splits),
                sp == 0 ==> split_decls@.len() == 0,
                forall|w: int| 0 <= w < split_decls@.len() ==>
                    (match #[trigger] split_decls@[w] {
                        Statement::Declaration { value, type_, .. } =>
                            type_ == Type::Int(false) && (value matches Expr::Int(_)),
                        _ => false,
                    }),
            decreases n_splits - sp,
        {
            let c = schedule.splits.0[sp].0;
            let base = match loop_idents.get(c) {
                Some(a) => a,
                None => {
                    return Err(LowerError::UnknownAxis(c));
                }
            };
            let n_factors = schedule.splits.0[sp].1.len();
            let mut idents: Vec<String> = Vec::new();
            let mut f: usize = 0;
            while f < n_factors
                invariant
                    node == &g.nodes@[id as int],
                    sp < schedule.splits.0@.len(),
                    n_factors == schedule.splits.0@[sp as int].1@.len(),
                    f <= n_factors,
                    idents@.len() == f,
                    self.input_args@ == args_mid,
                    forall|w: int| 0 <= w < split_decls@.len() ==>
                        (match #[trigger] split_decls@[w] {
                            Statement::Declaration { value, type_, .. } =>
                                type_ == Type::Int(false) && (value matches Expr::Int(_)),
                            _ => false,
                        }),
                decreases n_factors - f,
            {
                let left = joined_name(base.bound.as_str(), dec_string(f).as_str());
                let d2 = dec_string(self.split_factor_count);
                let ident = joined_name(left.as_str(), d2.as_str());
                bump(&mut self.split_factor_count);
                split_decls.push(Statement::Declaration {
                    ident: ident.clone(),
                    value: Expr::Int(schedule.splits.0[sp].1[f]),
                    type_: Type::Int(false),
                });
                idents.push(ident);
                f = f + 1;
            }
            split_idents.push((c, idents));
            sp = sp + 1;
        }
        proof {
            assert(sm_wf(sm_view(&split_idents))) by {
                assert forall|i: int, j: int|
                    0 <= i < j < sm_view(&split_idents).len() implies
                    (#[trigger] sm_view(&split_idents)[i]).0
                        != (#[trigger] sm_view(&split_idents)[j]).0 by {
                    assert(sm_view(&split_idents)[i].0 == schedule.splits.0@[i].0);
                    assert(sm_view(&split_idents)[j].0 == schedule.splits.0@[j].0);
                    assert(schedule@.splits[i].0 == schedule.splits.0@[i].0);
                    assert(schedule@.splits[j].0 == schedule.splits.0@[j].0);
                    assert(crate::graph::splits_v_wf(schedule@.splits));
                }
            }
        }

        // the output allocation (not emitted at the root)
        let mut shape: Vec<String> = Vec::new();
        let n_axes = node.index.len();
        let mut p: usize = 0;
        while p < n_axes
            invariant
                node == &g.nodes@[id as int],
                n_axes == node.index@.len(),
                p <= n_axes,
                loop_idents.wf(),
                shape@.len() == p,
                forall|w: int| 0 <= w < p ==> (#[trigger] shape@[w])@
                    == am_at(axis_map_view(&loop_idents), node.index@[w]).0,
            decreases n_axes - p,
        {
            let c = node.index[p];
            match loop_idents.get(c) {
                Some(a) => {
                    shape.push(a.bound.clone());
                }
                None => {
                    return Err(LowerError::UnknownAxis(c));
                }
            }
            p = p + 1;
        }
        let ghost shape_v = Seq::new(shape@.len(), |w: int| shape@[w]@);
        let alloc_statement = Statement::Declaration {
            ident: store_ident.clone(),
            value: Expr::Alloc { initial_value: op_identity(op), shape },
            type_: Type::Array(true),
        };

        // the innermost assignment and the loop nest around it
        let op_statement = match create_op_statement(
            op,
            &loop_idents,
            &child_store_idents,
            &child_tags,
            &store_ident,
            &node.index,
        ) {
            Ok(st) => st,
            Err(e) => {
                return Err(e);
            }
        };
        let loop_statements = match create_empty_loop_statements(
            &split_idents,
            &resolved_order,
            &loop_idents,
            &node.index,
        ) {
            Ok(v) => v,
            Err(e) => {
                return Err(e);
            }
        };
        proof {
            assert(crate::sem::nest_depth(op_statement) == 0);
            assert forall|j: int| 0 <= j < loop_statements@.len() implies
                (#[trigger] loop_statements@[j]) matches Statement::Loop { .. } by {
                assert(match loop_statements@[j] {
                    Statement::Loop { parallel, .. } => true,
                    _ => false,
                });
            }
            assert(resolved_order@.len() as int == n_loops);
        }
        let loop_stack = wrap_loops(loop_statements, op_statement);
        proof {
            // relate the resolved loop count to the axis keys: nothing is
            // missing when the order mentions every axis, and everything
            // is when it is empty
            let lo = schedule.loop_order@;
            let av = all_char_indices@;
            let keys = am_key_seq(axis_map_view(&loop_idents));
            if lo.len() == 0 {
                lemma_missing_empty_order(lo, av);
            }
            assert((forall|k: int| 0 <= k < keys.len() ==>
                lo_mentions(lo, #[trigger] keys[k]))
                ==> spec_missing(lo, av).len() == 0) by {
                if forall|k: int| 0 <= k < keys.len() ==> lo_mentions(lo, #[trigger] keys[k]) {
                    assert forall|k: int| 0 <= k < av.len() implies
                        lo_mentions(lo, #[trigger] av[k]) by {
                        assert(av.to_set().contains(av[k]));
                        assert(keys.to_set().contains(av[k]));
                        let w = choose|j: int| 0 <= j < keys.len() && keys[j] == av[k];
                        assert(lo_mentions(lo, keys[w]));
                    }
                    lemma_missing_all_mentioned(lo, av);
                }
            }
        }

        // at the root, register the output array and its extents as
        // arguments of `f`
        let ghost args_pre_root = self.input_args@;
        if root {
            self.input_args.push(Arg {
                type_: Type::ArrayRef(true),
                ident: Expr::Ident(store_ident.clone()),
            });
            let out_dims = get_char_indices(&node.index);
            proof {
                // the sorted unique output axes count the distinct
                // characters of the output index
                assert(out_dims@.no_duplicates()) by {
                    assert forall|a: int, b: int| 0 <= a < out_dims@.len()
                        && 0 <= b < out_dims@.len() && a != b implies
                        out_dims@[a] != out_dims@[b] by {
                        if a < b {
                            assert((out_dims@[a] as u32) < (out_dims@[b] as u32));
                        } else {
                            assert((out_dims@[b] as u32) < (out_dims@[a] as u32));
                        }
                    }
                }
                out_dims@.unique_seq_to_set();
            }
            let n_dims = out_dims.len();
            let mut d: usize = 0;
            while d < n_dims
                invariant
                    n_dims == out_dims@.len(),
                    d <= n_dims,
                    node == &g.nodes@[id as int],
                    self.input_args@.len() == args_pre_root.len() + 1 + d,
                    forall|w: int| 0 <= w < args_pre_root.len() ==>
                        #[trigger] self.input_args@[w] == args_pre_root[w],
                decreases n_dims - d,
            {
                let name = joined_name(store_ident.as_str(), dec_string(d).as_str());
                self.input_args.push(Arg { type_: Type::Int(false), ident: Expr::Ident(name) });
                d = d + 1;
            }
            proof {
                assert(uniq_len(g@.nodes[id as int].index) == out_dims@.len());
            }
        }

        // the helper function and its call
        let mut function_ident = String::new();
        function_ident.append("_");
        function_ident.append(store_ident.as_str());
        proof {
            reveal_strlit("_");
            assert(function_ident@ =~= seq!['_'] + store_ident@);
        }
        let call_ident = function_ident.clone();

        let mut fn_args: Vec<Arg> = Vec::new();
        let mut call_args: Vec<Arg> = Vec::new();
        let mut ci: usize = 0;
        while ci < child_store_idents.len()
            invariant
                ci <= child_store_idents@.len(),
            decreases child_store_idents@.len() - ci,
        {
            fn_args.push(Arg {
                type_: Type::ArrayRef(false),
                ident: Expr::Ident(child_store_idents[ci].clone()),
            });
            call_args.push(Arg {
                type_: Type::ArrayRef(false),
                ident: Expr::Ref(child_store_idents[ci].clone(), false),
            });
            ci = ci + 1;
        }
        fn_args.push(Arg {
            type_: Type::ArrayRef(true),
            ident: Expr::Ident(store_ident.clone()),
        });
        call_args.push(Arg {
            type_: Type::ArrayRef(true),
            ident: Expr::Ref(store_ident.clone(), true),
        });
        let mut bi: usize = 0;
        while bi < all_char_indices.len()
            invariant
                bi <= all_char_indices@.len(),
                loop_idents.wf(),
            decreases all_char_indices@.len() - bi,
        {
            let c = all_char_indices[bi];
            match loop_idents.get(c) {
                Some(a) => {
                    fn_args.push(Arg {
                        type_: Type::Int(false),
                        ident: Expr::Ident(a.bound.clone()),
                    });
                    call_args.push(Arg {
                        type_: Type::Int(false),
                        ident: Expr::Ident(a.bound.clone()),
                    });
                }
                None => {
                    return Err(LowerError::UnknownAxis(c));
                }
            }
            bi = bi + 1;
        }

        let ghost decls_v = split_decls@;
        let mut fn_body: Vec<Statement> = Vec::new();
        append_statements(&mut fn_body, split_decls);
        fn_body.push(loop_stack);
        proof {
            assert(forall|w: int| 0 <= w < fn_body@.len() - 1 ==>
                #[trigger] fn_body@[w] == decls_v[w]);
            assert(schedule.loop_order@.len() == 0 ==> fn_body@.len() == 1);
        }
        let function_statement = Statement::Function {
            ident: function_ident,
            args: fn_args,
            body: Block { statements: fn_body },
        };
        def_statements.push(function_statement);

        let ghost alloc_v = alloc_statement;
        if !root {
            exec_statements.push(alloc_statement);
        }
        exec_statements.push(Statement::Call { ident: call_ident, args: call_args });
        proof {
            assert(match exec_statements@.last() {
                Statement::Call { ident, .. } => ident@ == seq!['_'] + store_ident@,
                _ => false,
            });
            if !root {
                assert(exec_statements@[exec_statements@.len() - 2] == alloc_v);
                assert(match alloc_v {
                    Statement::Declaration { ident, value, type_ } => ident@ == store_ident@
                        && type_ == Type::Array(true)
                        && (match value {
                            Expr::Alloc { initial_value, shape } =>
                                initial_value == spec_op_identity(op)
                                && Seq::new(shape@.len(), |w: int| shape@[w]@) =~= shape_v,
                            _ => false,
                        }),
                    _ => false,
                });
                assert(shape_v =~= Seq::new(
                    g@.nodes[id as int].index.len(),
                    |w: int| am_at(axis_map_view(&loop_idents), g@.nodes[id as int].index[w]).0,
                ));
            }
            assert(match g@.nodes[id as int].body {
                crate::graph::NodeBodyV::Interior { op: ov, .. } => ov == op,
                _ => false,
            });
        }

        proof {
            // restate the emitted-function facts for the postcondition
            assert(g@.nodes[id as int] == g.nodes@[id as int]@);
            assert(match g@.nodes[id as int].body {
                crate::graph::NodeBodyV::Interior { schedule: sv, .. } =>
                    sv.loop_order == schedule.loop_order@,
                _ => false,
            });
            assert(interior_helper_facts(
                g@.nodes[id as int].body,
                def_statements@.last(),
                axis_map_view(&loop_idents),
                store_ident@,
            ));
            // argument bookkeeping: the children registered one slot per
            // leaf below them, and the root block added the output
            assert(crate::graph::leaves_of(g@.nodes, id as int)
                == crate::graph::leaves_of_children(
                g@.nodes,
                g@.nodes[id as int].children,
                id as int,
            ));
            assert(args_mid.len() == old(self).input_args@.len() + slots_weight(
                g@.nodes,
                crate::graph::leaves_of(g@.nodes, id as int),
            ));
            assert(self.input_args@.len() == args_pre_root.len()
                + (if root { 1 + uniq_len(g@.nodes[id as int].index) } else { 0 }));
            assert forall|w: int| 0 <= w < old(self).input_args@.len() implies
                #[trigger] self.input_args@[w] == old(self).input_args@[w] by {
                lemma_slots_weight_nonneg(
                    g@.nodes,
                    crate::graph::leaves_of(g@.nodes, id as int),
                );
                assert(args_pre_root[w] == args_mid[w]);
                assert(self.input_args@[w] == args_pre_root[w]);
            }
        }

        Ok((
            Block { statements: def_statements },
            Block { statements: exec_statements },
            loop_idents,
            store_ident,
        ))
    }
}


impl Lowerer {
    /// Lowers one node: a leaf registers inputs, an interior node emits
    /// its helper function, execution statements, axis map and store.
    fn lower_node(
        &mut self,
        g: &Graph,
        id: usize,
        root: bool,
    ) -> (r: Result<(Block, Block, AxisMap, String), LowerError>)
        requires
            g@.wf(),
            (id as int) < g@.nodes.len(),
        ensures
            match r {
                Ok(out) => out.2.wf()
                    && (forall|w: int| 0 <= w < out.0.statements@.len() ==>
                        (#[trigger] out.0.statements@[w]) matches Statement::Function { .. })
                    && (g@.nodes[id as int].children.len() > 0 ==> exec_block_facts(
                        g@.nodes[id as int].body,
                        out.1.statements@,
                        axis_map_view(&out.2),
                        out.3@,
                        g@.nodes[id as int].index,
                        root,
                    ))
                    && (g@.nodes[id as int].children.len() > 0 ==>
                        out.0.statements@.len() >= 1 && interior_helper_facts(
                        g@.nodes[id as int].body,
                        out.0.statements@.last(),
                        axis_map_view(&out.2),
                        out.3@,
                    ))
                    // argument bookkeeping of the top function: one array
                    // and its extents per input slot, and at the root the
                    // output array and its extents
                    && final(self).input_args@.len() == old(self).input_args@.len()
                        + slots_weight(
                            g@.nodes,
                            crate::graph::leaves_of(g@.nodes, id as int),
                        )
                        + (if root && g@.nodes[id as int].children.len() > 0 {
                            1 + uniq_len(g@.nodes[id as int].index)
                        } else {
                            0
                        })
                    && (forall|w: int| 0 <= w < old(self).input_args@.len() ==>
                        #[trigger] final(self).input_args@[w]
                            == old(self).input_args@[w]),
                Err(e) => e matches LowerError::UnknownAxis(_)
                    || e matches LowerError::MissingSplitEntry(_),
            },
        decreases id, 2int,
    {
        proof {
            assert(crate::graph::node_wf(g@.nodes, id as int));
        }
        if g.nodes[id].children.len() == 0 {
            let (d, e, am, store) = self.lower_leaf_node(&g.nodes[id].index);
            proof {
                let ids = crate::graph::leaves_of(g@.nodes, id as int);
                assert(ids =~= seq![id as int]);
                assert(ids.skip(1) =~= Seq::<int>::empty());
                assert(slots_weight(g@.nodes, Seq::<int>::empty()) == 0);
                assert(ids[0] == id as int);
                assert(g@.nodes[id as int].index == g.nodes@[id as int].index@);
                assert(slots_weight(g@.nodes, ids)
                    == 1 + uniq_len(g@.nodes[id as int].index));
            }
            Ok((d, e, am, store))
        } else {
            self.lower_interior_node(g, id, root)
        }
    }

    /// Lowers a graph to one block: the helper function definitions of
    /// every interior node followed by the top-level function `f`, whose
    /// arguments are, in order, an array reference and its per-axis
    /// extents for every input leaf, then a mutable array reference and
    /// its per-axis extents for the root's output, and whose body
    /// allocates the intermediate stores and calls the helpers in
    /// dependency order.
    pub fn lower(&mut self, graph: &Graph) -> (r: Result<Block, LowerError>)
        requires
            graph@.wf(),
            graph.roots@.len() > 0,
        ensures
            match r {
                Ok(b) => {
                    &&& b.statements@.len() >= 1
                    // one helper function per interior node, then `f`
                    &&& (forall|w: int| 0 <= w < b.statements@.len() ==>
                        (#[trigger] b.statements@[w]) matches Statement::Function { .. })
                    &&& (match b.statements@.last() {
                        Statement::Function { ident, .. } => ident@ == seq!['f'],
                        _ => false,
                    })
                    // with an interior root, `f`'s body runs the helpers
                    // and ends by calling the root's own helper on the
                    // output store
                    &&& (graph@.nodes[graph@.root_id()].children.len() > 0 ==> (match
                        b.statements@.last() {
                        Statement::Function { body, .. } => body.statements@.len() >= 1
                            && (match body.statements@.last() {
                                Statement::Call { ident, .. } =>
                                    ident@ == seq!['_', 'o', 'u', 't'],
                                _ => false,
                            }),
                        _ => false,
                    }))
                    // from a fresh lowerer, `f` takes exactly one array
                    // reference plus one extent per distinct axis for
                    // every input slot in traversal order, then the
                    // output array and one extent per distinct output
                    // axis
                    &&& (old(self).fresh()
                        && graph@.nodes[graph@.root_id()].children.len() > 0 ==> (match
                        b.statements@.last() {
                        Statement::Function { args, .. } => args@.len() == slots_weight(
                            graph@.nodes,
                            crate::graph::leaves_of(graph@.nodes, graph@.root_id()),
                        ) + 1 + uniq_len(graph@.nodes[graph@.root_id()].index),
                        _ => false,
                    }))
                    // the statement before `f` is the root's own helper:
                    // its body ends in the scheduled loop nest, at least
                    // one loop per entry of the root's loop order
                    &&& (graph@.nodes[graph@.root_id()].children.len() > 0 ==>
                        b.statements@.len() >= 2 && (match
                        b.statements@[b.statements@.len() - 2] {
                        Statement::Function { ident, body, .. } => {
                            &&& ident@ == seq!['_', 'o', 'u', 't']
                            &&& body.statements@.len() >= 1
                            &&& (match graph@.nodes[graph@.root_id()].body {
                                crate::graph::NodeBodyV::Interior { schedule, .. } =>
                                    crate::sem::nest_depth(body.statements@.last())
                                        >= schedule.loop_order.len(),
                                _ => false,
                            })
                        },
                        _ => false,
                    }))
                },
                Err(e) => e matches LowerError::UnknownAxis(_)
                    || e matches LowerError::MissingSplitEntry(_),
            },
    {
        let root = graph.root();
        let (def_block, exec_block, _loop_idents, _store_ident) =
            match self.lower_node(graph, root, true) {
                Ok(t) => t,
                Err(e) => {
                    return Err(e);
                }
            };
        let ghost def_v = def_block.statements@;
        let ghost am_v = axis_map_view(&_loop_idents);
        let ghost store_v = _store_ident@;
        let mut statements = def_block.statements;
        let mut args: Vec<Arg> = Vec::new();
        core::mem::swap(&mut args, &mut self.input_args);
        let f_ident = String::from_str("f");
        proof {
            reveal_strlit("f");
            assert(f_ident@ =~= seq!['f']);
        }
        statements.push(Statement::Function {
            ident: f_ident,
            args,
            body: Block { statements: exec_block.statements },
        });
        proof {
            if graph@.nodes[graph@.root_id()].children.len() > 0 {
                assert(statements@[statements@.len() - 2] == def_v.last());
                assert(interior_helper_facts(
                    graph@.nodes[graph@.root_id()].body,
                    def_v.last(),
                    am_v,
                    store_v,
                ));
                assert(store_v == seq!['o', 'u', 't']);
            }
        }
        Ok(Block { statements })
    }
}

} // verus!
