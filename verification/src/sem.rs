//! The meaning of the integer-valued block-IR expressions.
//!
//! The lowerer emits loop bounds, affine indices and index
//! reconstructions as `block::Expr` trees over identifiers and integer
//! literals.  This module gives those trees a mathematical value under
//! an environment mapping identifier spellings to integers, so that the
//! lowerer's contracts can say what the emitted arithmetic computes.

use vstd::prelude::*;

use crate::block::{Block, Expr, InitVal, Statement};

verus! {

broadcast use vstd::seq::group_seq_axioms, vstd::std_specs::vec::group_vec_axioms;

/// The mathematical value of a block-IR expression.
pub enum ExprV {
    Alloc { initial_value: InitVal, shape: Seq<Seq<char>> },
    Int(int),
    Ident(Seq<char>),
    Ref(Seq<char>, bool),
    Op { op: char, inputs: Seq<ExprV> },
    Indexed { ident: Seq<char>, index: Box<ExprV> },
}

/// The value of an expression tree.
pub open spec fn expr_view(e: Expr) -> ExprV
    decreases e, 1int,
{
    match e {
        Expr::Alloc { initial_value, shape } => ExprV::Alloc {
            initial_value,
            shape: Seq::new(shape@.len(), |i: int| shape@[i]@),
        },
        Expr::Int(n) => ExprV::Int(n as int),
        Expr::Ident(s) => ExprV::Ident(s@),
        Expr::Ref(s, m) => ExprV::Ref(s@, m),
        Expr::Op { op, inputs } => ExprV::Op { op, inputs: exprs_view(inputs@) },
        Expr::Indexed { ident, index } => ExprV::Indexed {
            ident: ident@,
            index: Box::new(expr_view(*index)),
        },
    }
}

/// The values of a sequence of expression trees.
pub open spec fn exprs_view(es: Seq<Expr>) -> Seq<ExprV>
    decreases es, 0int,
{
    if es.len() == 0 {
        Seq::empty()
    } else {
        exprs_view(es.drop_last()).push(expr_view(es.last()))
    }
}

/// `exprs_view` maps `expr_view` over its input.
pub proof fn lemma_exprs_view_elems(es: Seq<Expr>)
    ensures
        exprs_view(es).len() == es.len(),
        forall|i: int| 0 <= i < es.len() ==> exprs_view(es)[i] == expr_view(#[trigger] es[i]),
    decreases es.len(),
{
    if es.len() > 0 {
        lemma_exprs_view_elems(es.drop_last());
        assert forall|i: int| 0 <= i < es.len() implies
            exprs_view(es)[i] == expr_view(#[trigger] es[i]) by {
            if i < es.len() - 1 {
                assert(es.drop_last()[i] == es[i]);
            }
        }
    }
}

/// The sum of a sequence of integers.
pub open spec fn sum_of(s: Seq<int>) -> int
    decreases s.len(),
{
    if s.len() == 0 {
        0
    } else {
        sum_of(s.drop_last()) + s.last()
    }
}

/// The product of a sequence of integers.
pub open spec fn product_of(s: Seq<int>) -> int
    decreases s.len(),
{
    if s.len() == 0 {
        1
    } else {
        product_of(s.drop_last()) * s.last()
    }
}

/// The integer value of an expression under `env`.  `+` and `*` apply
/// to any number of inputs; `-` and `/` are binary; every other form
/// evaluates to zero.  Division is Euclidean, which agrees with machine
/// division on the non-negative values the lowerer emits.
pub open spec fn eval_int(e: ExprV, env: Map<Seq<char>, int>) -> int
    decreases e, 1int,
{
    match e {
        ExprV::Int(n) => n,
        ExprV::Ident(s) => if env.contains_key(s) {
            env[s]
        } else {
            0
        },
        ExprV::Op { op, inputs } => {
            let vals = evals_int(inputs, env);
            if op == '+' {
                sum_of(vals)
            } else if op == '*' {
                product_of(vals)
            } else if op == '-' && inputs.len() == 2 {
                vals[0] - vals[1]
            } else if op == '/' && inputs.len() == 2 && vals[1] != 0 {
                vals[0] / vals[1]
            } else {
                0
            }
        },
        _ => 0,
    }
}

/// The integer values of a sequence of expressions under `env`.
pub open spec fn evals_int(es: Seq<ExprV>, env: Map<Seq<char>, int>) -> Seq<int>
    decreases es, 0int,
{
    if es.len() == 0 {
        Seq::empty()
    } else {
        evals_int(es.drop_last(), env).push(eval_int(es.last(), env))
    }
}

/// `evals_int` maps `eval_int` over its input.
pub proof fn lemma_evals_int_elems(es: Seq<ExprV>, env: Map<Seq<char>, int>)
    ensures
        evals_int(es, env).len() == es.len(),
        forall|i: int| 0 <= i < es.len() ==> evals_int(es, env)[i]
            == eval_int(#[trigger] es[i], env),
    decreases es.len(),
{
    if es.len() > 0 {
        lemma_evals_int_elems(es.drop_last(), env);
        assert forall|i: int| 0 <= i < es.len() implies
            evals_int(es, env)[i] == eval_int(#[trigger] es[i], env) by {
            if i < es.len() - 1 {
                assert(es.drop_last()[i] == es[i]);
            }
        }
    }
}

/// The depth of the loop nest that begins a statement: loops count one
/// plus the nest of the last statement of their body, which is where
/// the lowerer places the next inner loop.
pub open spec fn nest_depth(s: Statement) -> nat
    decreases s,
{
    match s {
        Statement::Loop { body, .. } => {
            1 + if body.statements@.len() > 0 {
                nest_depth(body.statements@.last())
            } else {
                0
            }
        },
        _ => 0,
    }
}

/// The view of a two-element expression list.
pub proof fn lemma_exprs_view2(es: Seq<Expr>)
    requires
        es.len() == 2,
    ensures
        exprs_view(es) == seq![expr_view(es[0]), expr_view(es[1])],
{
    lemma_exprs_view_elems(es);
    assert(exprs_view(es) =~= seq![expr_view(es[0]), expr_view(es[1])]);
}

/// The integer value of an identifier under an environment, absent
/// identifiers reading as zero.
pub open spec fn env_val(env: Map<Seq<char>, int>, s: Seq<char>) -> int {
    if env.contains_key(s) {
        env[s]
    } else {
        0
    }
}

/// The values of a list of identifiers.
pub open spec fn env_vals(env: Map<Seq<char>, int>, ss: Seq<Seq<char>>) -> Seq<int> {
    Seq::new(ss.len(), |i: int| env_val(env, ss[i]))
}

/// The value of a binary operator node.
pub proof fn lemma_eval_bin(op: char, a: ExprV, b: ExprV, env: Map<Seq<char>, int>)
    requires
        op == '+' || op == '*' || op == '-',
    ensures
        op == '+' ==> eval_int(ExprV::Op { op, inputs: seq![a, b] }, env)
            == eval_int(a, env) + eval_int(b, env),
        op == '*' ==> eval_int(ExprV::Op { op, inputs: seq![a, b] }, env)
            == eval_int(a, env) * eval_int(b, env),
        op == '-' ==> eval_int(ExprV::Op { op, inputs: seq![a, b] }, env)
            == eval_int(a, env) - eval_int(b, env),
{
    let es = seq![a, b];
    lemma_evals_int_elems(es, env);
    let vals = evals_int(es, env);
    assert(vals =~= seq![eval_int(a, env), eval_int(b, env)]);
    let ea = eval_int(a, env);
    let eb = eval_int(b, env);
    assert(vals.drop_last() =~= seq![ea]);
    assert(seq![ea].drop_last() =~= Seq::<int>::empty());
    assert(sum_of(Seq::<int>::empty()) == 0);
    assert(product_of(Seq::<int>::empty()) == 1);
    assert(sum_of(seq![ea]) == 0 + ea);
    assert(product_of(seq![ea]) == 1 * ea);
    assert(sum_of(vals) == sum_of(seq![ea]) + eb);
    assert(product_of(vals) == product_of(seq![ea]) * eb);
}

} // verus!
