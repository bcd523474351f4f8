//! The recursive-descent parser of the surface syntax.
//!
//! A file is a sequence of named expressions followed by one final
//! expression.  Each expression is either an index expression — a
//! scalar op, `~`, the output index, and an optional schedule — or a
//! combinator `name.name` over two already-defined components.  The
//! parser fills an expression bank and a symbol table from names to
//! bank handles; every `Chain` it produces refers only to earlier bank
//! entries, so the bank is acyclic.

use vstd::prelude::*;
use vstd::string::StrSliceExecFns;
use vstd::string::StringExecFns;

use crate::ast::{AST, BinaryOp, Combinator, Expr, ExprBank, ExprRef, IndexExpr, NamedExpr, NoOp, ScalarOp, Schedule, Splits, Symbol, UnaryOp, bank_wf, bank_schedules_wf};
use crate::tokenizer::{Token, Tokenizer};

verus! {

/// Parse failures: the first offending token, or a name that no earlier
/// definition binds.
#[derive(Debug)]
pub enum ParseError {
    InvalidToken { expected: String },
    UnrecognizedSymbol { symbol: Symbol },
}

/// Every table entry points below the given bank length.
pub open spec fn table_wf(t: Seq<(Symbol, ExprRef)>, bank_len: int) -> bool {
    forall|i: int| 0 <= i < t.len() ==> (#[trigger] t[i]).1.0 < bank_len
}

pub struct Parser {
    tokenizer: Tokenizer,
    /// Maps component names to their bank handles; later definitions of
    /// one name shadow earlier ones.
    pub symbol_table: Vec<(Symbol, ExprRef)>,
}

impl Parser {
    /// The tokens still to be consumed.
    pub closed spec fn stream(&self) -> Seq<crate::tokenizer::TokenV> {
        self.tokenizer.stream()
    }

    pub closed spec fn wf(&self) -> bool {
        self.tokenizer.wf()
    }

    /// The symbol-table entries.
    pub closed spec fn table(&self) -> Seq<(Symbol, ExprRef)> {
        self.symbol_table@
    }

    /// Tokenizes the input; fails on a character outside the grammar or
    /// an oversized integer literal.
    pub fn new(input: &str) -> (r: Result<Parser, String>)
        ensures
            match r {
                Ok(p) => p.wf() && p.table().len() == 0,
                Err(_) => true,
            },
    {
        let tokenizer = match Tokenizer::new(input) {
            Ok(t) => t,
            Err(e) => {
                return Err(e);
            }
        };
        Ok(Parser { tokenizer, symbol_table: Vec::new() })
    }

    /// Parses a whole file: named expressions while the second upcoming
    /// token is a colon, then the final expression, which becomes the
    /// last bank entry.  The returned bank is acyclic — every `Chain`
    /// refers only to earlier entries — and all its schedules have
    /// unique split keys.
    pub fn parse(&mut self) -> (r: Result<(AST, ExprBank), ParseError>)
        requires
            old(self).wf(),
        ensures
            final(self).wf(),
            match r {
                Ok(t) => {
                    let (ast, bank) = t;
                    &&& bank_wf(&bank)
                    &&& bank_schedules_wf(&bank)
                    &&& bank.0@.len() > 0
                    // one bank entry per named expression plus the final
                    // expression, in definition order
                    &&& bank.0@.len() == ast.0@.len() + 1
                    &&& ast.1.0 == bank.0@.len() - 1
                    &&& (forall|i: int| 0 <= i < ast.0@.len() ==>
                        (#[trigger] ast.0@[i]).expr_ref.0 == i)
                    // the symbol table binds exactly the named
                    // expressions, each name to its handle
                    &&& final(self).table().len() == ast.0@.len()
                    &&& (forall|i: int| 0 <= i < ast.0@.len() ==>
                        (#[trigger] final(self).table()[i]).1.0 == i
                        && final(self).table()[i].0.0@ == ast.0@[i].ident.0@)
                    // parsing consumed at least the final expression
                    &&& final(self).stream().len() < old(self).stream().len()
                },
                Err(_) => true,
            },
    {
        let mut named_exprs: Vec<NamedExpr> = Vec::new();
        let mut expr_bank = ExprBank(Vec::new());
        // the bank starts empty, so the namespace starts empty too
        self.symbol_table = Vec::new();
        proof {
            assert(table_wf(self.table(), expr_bank.0@.len() as int));
        }
        loop
            invariant
                self.wf(),
                bank_wf(&expr_bank),
                bank_schedules_wf(&expr_bank),
                table_wf(self.table(), expr_bank.0@.len() as int),
                self.stream().len() <= old(self).stream().len(),
                expr_bank.0@.len() == named_exprs@.len(),
                self.table().len() == named_exprs@.len(),
                forall|i: int| 0 <= i < named_exprs@.len() ==>
                    (#[trigger] named_exprs@[i]).expr_ref.0 == i,
                forall|i: int| 0 <= i < named_exprs@.len() ==>
                    (#[trigger] self.table()[i]).1.0 == i
                    && self.table()[i].0.0@ == named_exprs@[i].ident.0@,
            ensures
                self.wf(),
                bank_wf(&expr_bank),
                bank_schedules_wf(&expr_bank),
                table_wf(self.table(), expr_bank.0@.len() as int),
                self.stream().len() <= old(self).stream().len(),
                expr_bank.0@.len() == named_exprs@.len(),
                self.table().len() == named_exprs@.len(),
                forall|i: int| 0 <= i < named_exprs@.len() ==>
                    (#[trigger] named_exprs@[i]).expr_ref.0 == i,
                forall|i: int| 0 <= i < named_exprs@.len() ==>
                    (#[trigger] self.table()[i]).1.0 == i
                    && self.table()[i].0.0@ == named_exprs@[i].ident.0@,
            decreases self.stream().len(),
        {
            let (_, second) = self.tokenizer.peek();
            let is_named = matches!(second, Token::Colon);
            if !is_named {
                break;
            }
            proof {
                // a colon in second position means at least two tokens
                // remain, so the named expression strictly consumes
                assert(self.stream().len() >= 2);
            }
            let named = match self.parse_named_expr(&mut expr_bank) {
                Ok(n) => n,
                Err(e) => {
                    return Err(e);
                }
            };
            named_exprs.push(named);
        }
        let expr = match self.parse_expr(&mut expr_bank) {
            Ok(e) => e,
            Err(e) => {
                return Err(e);
            }
        };
        let ghost pre = expr_bank.0@;
        let ghost ev = expr;
        expr_bank.0.push(expr);
        proof {
            lemma_bank_push(pre, ev, expr_bank.0@);
        }
        let last = expr_bank.0.len() - 1;
        Ok((AST(named_exprs, ExprRef(last)), expr_bank))
    }

    /// Parses `name : expr`, pushes the expression, and binds the name.
    fn parse_named_expr(&mut self, expr_bank: &mut ExprBank) -> (r: Result<NamedExpr, ParseError>)
        requires
            old(self).wf(),
            bank_wf(old(expr_bank)),
            bank_schedules_wf(old(expr_bank)),
            table_wf(old(self).table(), old(expr_bank).0@.len() as int),
            old(self).stream().len() >= 1,
        ensures
            final(self).wf(),
            bank_wf(final(expr_bank)),
            bank_schedules_wf(final(expr_bank)),
            table_wf(final(self).table(), final(expr_bank).0@.len() as int),
            final(self).stream().len() <= old(self).stream().len(),
            final(expr_bank).0@.len() >= old(expr_bank).0@.len(),
            match r {
                Ok(n) => {
                    &&& n.expr_ref.0 == old(expr_bank).0@.len()
                    &&& final(expr_bank).0@.len() == old(expr_bank).0@.len() + 1
                    &&& (forall|w: int| 0 <= w < old(expr_bank).0@.len() ==>
                        #[trigger] final(expr_bank).0@[w] == old(expr_bank).0@[w])
                    &&& final(self).table().len() == old(self).table().len() + 1
                    &&& (forall|w: int| 0 <= w < old(self).table().len() ==>
                        #[trigger] final(self).table()[w] == old(self).table()[w])
                    &&& final(self).table().last().0.0@ == n.ident.0@
                    &&& final(self).table().last().1.0 == n.expr_ref.0
                    &&& final(self).stream().len() < old(self).stream().len()
                },
                Err(_) => true,
            },
    {
        let ident = match self.parse_symbol() {
            Ok(s) => s,
            Err(e) => {
                return Err(e);
            }
        };
        match self.tokenizer.next() {
            Token::Colon => {}
            _ => {
                return Err(invalid_token("Colon"));
            }
        }
        let expr = match self.parse_expr(expr_bank) {
            Ok(e) => e,
            Err(e) => {
                return Err(e);
            }
        };
        let ghost pre = expr_bank.0@;
        let ghost ev = expr;
        expr_bank.0.push(expr);
        proof {
            lemma_bank_push(pre, ev, expr_bank.0@);
        }
        let expr_ref = ExprRef(expr_bank.0.len() - 1);
        let ident_copy = Symbol(ident.0.clone());
        self.symbol_table.push((ident_copy, expr_ref));
        proof {
            assert(table_wf(self.table(), expr_bank.0@.len() as int));
        }
        Ok(NamedExpr { ident, expr_ref })
    }

    /// Parses one expression: a combinator when the second token is a
    /// dot, else an index expression.  The returned expression may refer
    /// only to existing bank entries.
    fn parse_expr(&mut self, expr_bank: &mut ExprBank) -> (r: Result<Expr, ParseError>)
        requires
            old(self).wf(),
            bank_wf(old(expr_bank)),
            bank_schedules_wf(old(expr_bank)),
            table_wf(old(self).table(), old(expr_bank).0@.len() as int),
        ensures
            final(self).wf(),
            *final(expr_bank) == *old(expr_bank),
            final(self).table() == old(self).table(),
            final(self).stream().len() <= old(self).stream().len(),
            match r {
                Ok(e) => {
                    &&& final(self).stream().len() < old(self).stream().len()
                    &&& expr_refs_below(&e, old(expr_bank).0@.len() as int)
                    &&& expr_schedule_wf(&e)
                    // the expression denotes the consumed tokens
                    &&& (match e {
                        Expr::Combinator(Combinator::Chain(_, _)) => (match (
                            crate::tokenizer::tok_at(old(self).stream(), 0),
                            crate::tokenizer::tok_at(old(self).stream(), 1),
                            crate::tokenizer::tok_at(old(self).stream(), 2),
                        ) {
                            (
                                crate::tokenizer::TokenV::Symbol(_),
                                crate::tokenizer::TokenV::Dot,
                                crate::tokenizer::TokenV::Symbol(_),
                            ) => final(self).stream() == old(self).stream().skip(3),
                            _ => false,
                        }),
                        Expr::Index(ie) => (scalarop_form(ie.op, old(self).stream())
                            matches Some(n)
                            && crate::tokenizer::tok_at(old(self).stream(), n)
                                == crate::tokenizer::TokenV::Squiggle
                            && crate::tokenizer::tok_at(old(self).stream(), n + 1)
                                == crate::tokenizer::TokenV::Symbol(ie.out.0@)),
                    })
                },
                Err(_) => true,
            },
    {
        let (first, second) = self.tokenizer.peek();
        let second_dot = matches!(second, Token::Dot);
        let first_op = matches!(first, Token::Operator(_));
        let second_op = matches!(second, Token::Operator(_));
        let second_squiggle = matches!(second, Token::Squiggle);
        if second_dot {
            match self.parse_combinator(expr_bank) {
                Ok(c) => Ok(Expr::Combinator(c)),
                Err(e) => Err(e),
            }
        } else if first_op || second_op || second_squiggle {
            match self.parse_index_expr() {
                Ok(ie) => Ok(Expr::Index(ie)),
                Err(e) => Err(e),
            }
        } else {
            Err(invalid_token("Index or Dot"))
        }
    }

    /// Parses an index expression with its optional schedule clause
    /// `| splits | loop_order`.
    pub fn parse_index_expr(&mut self) -> (r: Result<IndexExpr, ParseError>)
        requires
            old(self).wf(),
        ensures
            final(self).wf(),
            final(self).table() == old(self).table(),
            final(self).stream().len() <= old(self).stream().len(),
            match r {
                Ok(ie) => {
                    &&& final(self).stream().len() < old(self).stream().len()
                    &&& ie.schedule.wf()
                    // the op and the output index denote the consumed
                    // tokens; without a schedule clause nothing more is
                    // consumed and the schedule is empty
                    &&& (scalarop_form(ie.op, old(self).stream()) matches Some(n)
                        && crate::tokenizer::tok_at(old(self).stream(), n)
                            == crate::tokenizer::TokenV::Squiggle
                        && crate::tokenizer::tok_at(old(self).stream(), n + 1)
                            == crate::tokenizer::TokenV::Symbol(ie.out.0@)
                        && (!(crate::tokenizer::tok_at(old(self).stream(), n + 2)
                            matches crate::tokenizer::TokenV::Bar) ==>
                            final(self).stream() == old(self).stream().skip(n + 2)
                            && ie.schedule.splits.0@.len() == 0
                            && ie.schedule.loop_order@.len() == 0))
                },
                Err(_) => true,
            },
    {
        let unscheduled = match self.parse_unscheduled_index_expr() {
            Ok(ie) => ie,
            Err(e) => {
                return Err(e);
            }
        };
        let ghost n = (choose|n: int| scalarop_form(unscheduled.op, old(self).stream())
            == Some(n));
        proof {
            lemma_tok_skip(old(self).stream(), n + 2);
        }
        let (first, _) = self.tokenizer.peek();
        let has_schedule = matches!(first, Token::Bar);
        proof {
            if has_schedule {
                assert(first@ == crate::tokenizer::TokenV::Bar);
            }
        }
        if has_schedule {
            let _ = self.tokenizer.next();
            let splits = match self.parse_splits() {
                Ok(s) => s,
                Err(e) => {
                    return Err(e);
                }
            };
            match self.tokenizer.next() {
                Token::Bar => {}
                _ => {
                    return Err(invalid_token("Bar"));
                }
            }
            let loop_order = match self.parse_loop_order() {
                Ok(o) => o,
                Err(e) => {
                    return Err(e);
                }
            };
            Ok(IndexExpr {
                op: unscheduled.op,
                out: unscheduled.out,
                schedule: Schedule { splits, loop_order },
            })
        } else {
            Ok(unscheduled)
        }
    }

    /// Parses `scalarop ~ out` with the empty schedule.  On success the
    /// result denotes exactly the tokens consumed: the scalar op's
    /// tokens, the squiggle, and the output index name.
    pub fn parse_unscheduled_index_expr(&mut self) -> (r: Result<IndexExpr, ParseError>)
        requires
            old(self).wf(),
        ensures
            final(self).wf(),
            final(self).table() == old(self).table(),
            final(self).stream().len() <= old(self).stream().len(),
            match r {
                Ok(ie) => (scalarop_form(ie.op, old(self).stream()) matches Some(n)
                    && crate::tokenizer::tok_at(old(self).stream(), n)
                        == crate::tokenizer::TokenV::Squiggle
                    && crate::tokenizer::tok_at(old(self).stream(), n + 1)
                        == crate::tokenizer::TokenV::Symbol(ie.out.0@)
                    && final(self).stream() == old(self).stream().skip(n + 2))
                    && ie.schedule.wf()
                    && ie.schedule.splits.0@.len() == 0
                    && ie.schedule.loop_order@.len() == 0,
                Err(_) => true,
            },
    {
        let op = match self.parse_scalarop() {
            Ok(op) => op,
            Err(e) => {
                return Err(e);
            }
        };
        let ghost n = (choose|n: int| scalarop_form(op, old(self).stream()) == Some(n));
        proof {
            lemma_tok_skip(old(self).stream(), n);
            lemma_tok_skip(old(self).stream().skip(n), 1);
        }
        match self.tokenizer.next() {
            Token::Squiggle => {}
            _ => {
                return Err(invalid_token("Squiggle"));
            }
        }
        let out = match self.parse_symbol() {
            Ok(s) => s,
            Err(e) => {
                return Err(e);
            }
        };
        proof {
            assert(self.stream() =~= old(self).stream().skip(n + 2));
        }
        Ok(IndexExpr { op, out, schedule: Schedule::empty() })
    }

    /// Parses the split list of a schedule: comma-separated entries of
    /// one axis character followed by colon-separated factors, ending at
    /// the bar that introduces the loop order.  A repeated axis entry
    /// replaces the earlier one, so the keys stay unique.
    pub fn parse_splits(&mut self) -> (r: Result<Splits, ParseError>)
        requires
            old(self).wf(),
        ensures
            final(self).wf(),
            final(self).table() == old(self).table(),
            final(self).stream().len() <= old(self).stream().len(),
            match r {
                Ok(s) => s.wf()
                    // the clause is consumed up to, not including, the
                    // bar that introduces the loop order
                    && crate::tokenizer::tok_at(final(self).stream(), 0)
                        == crate::tokenizer::TokenV::Bar,
                Err(_) => true,
            },
    {
        let mut splits = Splits::empty();
        loop
            invariant
                self.wf(),
                self.table() == old(self).table(),
                self.stream().len() <= old(self).stream().len(),
                splits.wf(),
            ensures
                self.wf(),
                self.table() == old(self).table(),
                self.stream().len() <= old(self).stream().len(),
                splits.wf(),
            decreases self.stream().len(),
        {
            let (first, _) = self.tokenizer.peek();
            let at_bar = matches!(first, Token::Bar);
            if at_bar {
                // an empty split list, or the end of the clause
                proof {
                    assert(first@ == crate::tokenizer::TokenV::Bar);
                }
                return Ok(splits);
            }
            let ghost len0 = self.stream().len();
            let axis_sym = match self.tokenizer.next() {
                Token::Symbol(s) => s,
                _ => {
                    return Err(invalid_token("Symbol"));
                }
            };
            proof {
                assert(self.stream().len() < len0);
            }
            if axis_sym.as_str().unicode_len() != 1 {
                return Err(invalid_token("single-character axis"));
            }
            let c = axis_sym.as_str().get_char(0);
            let mut factors: Vec<usize> = Vec::new();
            loop
                invariant
                    self.wf(),
                    self.table() == old(self).table(),
                    self.stream().len() < len0,
                    len0 <= old(self).stream().len(),
                ensures
                    self.wf(),
                    self.table() == old(self).table(),
                    self.stream().len() < len0,
                decreases self.stream().len(),
            {
                let (first, _) = self.tokenizer.peek();
                let at_colon = matches!(first, Token::Colon);
                if !at_colon {
                    break;
                }
                let _ = self.tokenizer.next();
                match self.tokenizer.next() {
                    Token::Int(n) => {
                        factors.push(n);
                    }
                    _ => {
                        return Err(invalid_token("Integer"));
                    }
                }
            }
            splits_insert(&mut splits, c, factors);
            let (first, _) = self.tokenizer.peek();
            let at_comma = matches!(first, Token::Comma);
            let at_bar = matches!(first, Token::Bar);
            if at_comma {
                let _ = self.tokenizer.next();
            } else if at_bar {
                proof {
                    assert(first@ == crate::tokenizer::TokenV::Bar);
                }
                return Ok(splits);
            } else {
                return Err(invalid_token("Comma or Bar"));
            }
        }
    }

    /// Parses the loop order: name tokens whose letters are axes and
    /// whose primes bump the rank of the preceding axis, so `i i' j` and
    /// `ii'j` read the same.  The order ends before a name that starts
    /// the next expression — one followed by a colon, a dot or a
    /// squiggle — or at any token that is no name.
    pub fn parse_loop_order(&mut self) -> (r: Result<Vec<(char, usize)>, ParseError>)
        requires
            old(self).wf(),
        ensures
            final(self).wf(),
            final(self).table() == old(self).table(),
            final(self).stream().len() <= old(self).stream().len(),
            match r {
                Ok(v) => {
                    // the order is the fold of the consumed names'
                    // characters, and exactly those names are consumed
                    &&& order_value(Seq::empty(), order_take(old(self).stream()))
                        == Some(v@)
                    &&& final(self).stream() == old(self).stream().skip(
                        order_take(old(self).stream()).len() as int,
                    )
                    &&& {
                        let t0 = crate::tokenizer::tok_at(final(self).stream(), 0);
                        let t1 = crate::tokenizer::tok_at(final(self).stream(), 1);
                        ||| !(t0 matches crate::tokenizer::TokenV::Symbol(_))
                        ||| t1 matches crate::tokenizer::TokenV::Colon
                        ||| t1 matches crate::tokenizer::TokenV::Dot
                        ||| t1 matches crate::tokenizer::TokenV::Squiggle
                    }
                },
                Err(_) => order_value(Seq::empty(), order_take(old(self).stream()))
                    == None::<Seq<(char, usize)>>,
            },
    {
        let mut order: Vec<(char, usize)> = Vec::new();
        let ghost mut syms: Seq<Seq<char>> = Seq::empty();
        proof {
            assert(Seq::empty() + order_take(self.stream()) =~= order_take(self.stream()));
        }
        loop
            invariant
                self.wf(),
                self.table() == old(self).table(),
                self.stream().len() <= old(self).stream().len(),
                self.stream() == old(self).stream().skip(syms.len() as int),
                syms.len() <= old(self).stream().len(),
                order_take(old(self).stream()) == syms + order_take(self.stream()),
                order_value(Seq::empty(), syms) == Some(order@),
            ensures
                self.wf(),
                self.table() == old(self).table(),
                self.stream().len() <= old(self).stream().len(),
            decreases self.stream().len(),
        {
            let (first, second) = self.tokenizer.peek();
            let first_sym = matches!(first, Token::Symbol(_));
            let second_colon = matches!(second, Token::Colon);
            let second_dot = matches!(second, Token::Dot);
            let second_squiggle = matches!(second, Token::Squiggle);
            if !first_sym || second_colon || second_dot || second_squiggle {
                proof {
                    assert(!first_sym ==> !(first@
                        matches crate::tokenizer::TokenV::Symbol(_)));
                    assert(second_colon ==> second@ == crate::tokenizer::TokenV::Colon);
                    assert(second_dot ==> second@ == crate::tokenizer::TokenV::Dot);
                    assert(second_squiggle ==> second@
                        == crate::tokenizer::TokenV::Squiggle);
                    assert(order_take(self.stream()) =~= Seq::<Seq<char>>::empty());
                    assert(order_take(old(self).stream()) =~= syms);
                }
                return Ok(order);
            }
            let ghost stream0 = self.stream();
            let sym = match self.tokenizer.next() {
                Token::Symbol(s) => s,
                _ => {
                    return Err(invalid_token("Symbol"));
                }
            };
            let ghost nm = sym@;
            let ghost entry_acc = order@;
            let ghost rest0 = order_take(stream0.skip(1));
            proof {
                assert(crate::tokenizer::tok_at(stream0, 0)
                    == crate::tokenizer::TokenV::Symbol(nm));
                assert(order_take(stream0) == seq![nm] + rest0);
                assert(self.stream() == stream0.skip(1));
                lemma_order_value_concat(Seq::empty(), syms, seq![nm] + rest0);
                assert(syms + (seq![nm] + rest0) =~= order_take(old(self).stream()));
                assert(order_take(old(self).stream()).skip(syms.len() as int + 1)
                    =~= rest0);
                assert(syms.push(nm) + rest0 =~= order_take(old(self).stream()));
                assert(nm.take(0) =~= Seq::<char>::empty());
            }
            let s = sym.as_str();
            let n = s.unicode_len();
            let mut p: usize = 0;
            while p < n
                invariant
                    p <= n,
                    n == s@.len(),
                    s@ == nm,
                    self.wf(),
                    self.table() == old(self).table(),
                    self.stream().len() <= old(self).stream().len(),
                    order_fold(entry_acc, nm.take(p as int)) == Some(order@),
                    order_value(Seq::empty(), syms) == Some(entry_acc),
                    order_value(Seq::empty(), order_take(old(self).stream()))
                        == order_value(entry_acc, seq![nm]
                            + order_take(old(self).stream()).skip(syms.len() as int + 1)),
                    order_take(old(self).stream()) == syms.push(nm)
                        + order_take(old(self).stream()).skip(syms.len() as int + 1),
                decreases n - p,
            {
                proof {
                    lemma_order_fold_concat(entry_acc, nm.take(p as int), seq![nm[p as int]]);
                    assert(nm.take(p as int) + seq![nm[p as int]] =~= nm.take(p as int + 1));
                    assert(seq![nm[p as int]].skip(1) =~= Seq::<char>::empty());
                }
                let ghost prev = order@;
                let ch = s.get_char(p);
                proof {
                    assert(ch == nm[p as int]);
                }
                if ch == '\'' {
                    if order.len() == 0 {
                        proof {
                            assert(order_step(order@, nm[p as int])
                                matches None);
                            lemma_fold_prefix_none(entry_acc, nm, p as int);
                            let rest = order_take(old(self).stream()).skip(syms.len() as int + 1);
                            assert((seq![nm] + rest)[0] == nm);
                            assert(order_value(entry_acc, seq![nm] + rest)
                                == None::<Seq<(char, usize)>>);
                        }
                        return Err(invalid_token("axis before prime"));
                    }
                    let last = order.len() - 1;
                    let (axis, rank) = order[last];
                    if rank == usize::MAX {
                        proof {
                            assert(order@.last() == (axis, rank));
                            assert(order_step(order@, nm[p as int])
                                matches None);
                            lemma_fold_prefix_none(entry_acc, nm, p as int);
                            let rest = order_take(old(self).stream()).skip(syms.len() as int + 1);
                            assert((seq![nm] + rest)[0] == nm);
                            assert(order_value(entry_acc, seq![nm] + rest)
                                == None::<Seq<(char, usize)>>);
                        }
                        return Err(invalid_token("fewer primes"));
                    }
                    order.set(last, (axis, rank + 1));
                    proof {
                        assert(prev.last() == (axis, rank));
                        assert(order@ =~= prev.update(prev.len() - 1, (axis, (rank + 1) as usize)));
                        assert(order_step(prev, ch) == Some(order@));
                    }
                } else {
                    order.push((ch, 0));
                    proof {
                        assert(order@ =~= prev.push((ch, 0)));
                        assert(order_step(prev, ch) == Some(order@));
                    }
                }
                proof {
                    assert(order_fold(order@, Seq::<char>::empty()) == Some(order@));
                    assert(seq![nm[p as int]].skip(1) =~= Seq::<char>::empty());
                    assert(order_fold(prev, seq![nm[p as int]]) == Some(order@));
                    assert(order_fold(entry_acc, nm.take(p as int + 1)) == Some(order@));
                }
                p = p + 1;
            }
            proof {
                assert(nm.take(n as int) =~= nm);
                assert(order_fold(entry_acc, nm) == Some(order@));
                lemma_order_value_concat(Seq::empty(), syms, seq![nm]);
                assert(syms + seq![nm] =~= syms.push(nm));
                assert(seq![nm].skip(1) =~= Seq::<Seq<char>>::empty());
                assert(order_value(order@, Seq::<Seq<char>>::empty()) == Some(order@));
                assert(order_value(Seq::empty(), syms.push(nm)) == Some(order@));
                syms = syms.push(nm);
                assert(order_take(old(self).stream()) =~= syms + rest0);
                assert(order_take(self.stream()) == rest0);
                assert(self.stream() =~= old(self).stream().skip(syms.len() as int));
            }
        }
    }

    /// Parses a scalar op: a leading operator is unary, a name before an
    /// operator is the left input of a binary op, and a bare name before
    /// the squiggle is the identity op.  On success the returned op
    /// denotes exactly the tokens consumed.
    pub fn parse_scalarop(&mut self) -> (r: Result<ScalarOp, ParseError>)
        requires
            old(self).wf(),
        ensures
            final(self).wf(),
            final(self).table() == old(self).table(),
            final(self).stream().len() <= old(self).stream().len(),
            match r {
                Ok(op) => (scalarop_form(op, old(self).stream()) matches Some(n)
                    && final(self).stream() == old(self).stream().skip(n)),
                Err(_) => (match (
                    crate::tokenizer::tok_at(old(self).stream(), 0),
                    crate::tokenizer::tok_at(old(self).stream(), 1),
                    crate::tokenizer::tok_at(old(self).stream(), 2),
                ) {
                    (
                        crate::tokenizer::TokenV::Operator(c),
                        crate::tokenizer::TokenV::Symbol(_),
                        _,
                    ) => !is_unary_char(c),
                    (
                        crate::tokenizer::TokenV::Symbol(_),
                        crate::tokenizer::TokenV::Operator(c),
                        crate::tokenizer::TokenV::Symbol(_),
                    ) => !is_binary_char(c),
                    (
                        crate::tokenizer::TokenV::Symbol(_),
                        crate::tokenizer::TokenV::Squiggle,
                        _,
                    ) => false,
                    _ => true,
                }),
            },
    {
        let (first, second) = self.tokenizer.peek();
        let first_op = matches!(first, Token::Operator(_));
        let first_sym = matches!(first, Token::Symbol(_));
        let second_op = matches!(second, Token::Operator(_));
        let second_squiggle = matches!(second, Token::Squiggle);
        if first_op {
            match self.parse_unaryop() {
                Ok(u) => Ok(ScalarOp::UnaryOp(u)),
                Err(e) => Err(e),
            }
        } else if first_sym && second_op {
            match self.parse_binaryop() {
                Ok(b) => Ok(ScalarOp::BinaryOp(b)),
                Err(e) => Err(e),
            }
        } else if first_sym && second_squiggle {
            match self.parse_noop() {
                Ok(n) => Ok(ScalarOp::NoOp(n)),
                Err(e) => Err(e),
            }
        } else {
            Err(invalid_token("[Operator]<Any>, [Symbol][Operator], [Symbol]<Any>"))
        }
    }

    /// Parses `left op right`: succeeds exactly when the next tokens
    /// are a name, a binary op character and a name, and returns the
    /// denoted op.
    pub fn parse_binaryop(&mut self) -> (r: Result<BinaryOp, ParseError>)
        requires
            old(self).wf(),
        ensures
            final(self).wf(),
            final(self).table() == old(self).table(),
            final(self).stream().len() <= old(self).stream().len(),
            match r {
                Ok(b) => (match (
                    crate::tokenizer::tok_at(old(self).stream(), 0),
                    crate::tokenizer::tok_at(old(self).stream(), 1),
                    crate::tokenizer::tok_at(old(self).stream(), 2),
                ) {
                    (
                        crate::tokenizer::TokenV::Symbol(lnm),
                        crate::tokenizer::TokenV::Operator(c),
                        crate::tokenizer::TokenV::Symbol(rnm),
                    ) => binary_matches(b, c, lnm, rnm)
                        && final(self).stream() == old(self).stream().skip(3),
                    _ => false,
                }),
                Err(_) => (match (
                    crate::tokenizer::tok_at(old(self).stream(), 0),
                    crate::tokenizer::tok_at(old(self).stream(), 1),
                    crate::tokenizer::tok_at(old(self).stream(), 2),
                ) {
                    (
                        crate::tokenizer::TokenV::Symbol(_),
                        crate::tokenizer::TokenV::Operator(c),
                        crate::tokenizer::TokenV::Symbol(_),
                    ) => !is_binary_char(c),
                    _ => true,
                }),
            },
    {
        proof {
            lemma_tok_skip(old(self).stream(), 1);
            lemma_tok_skip(old(self).stream(), 2);
            lemma_tok_skip(old(self).stream().skip(1), 1);
        }
        let left = match self.parse_symbol() {
            Ok(s) => s,
            Err(e) => {
                return Err(e);
            }
        };
        let op = self.tokenizer.next();
        let right = match self.parse_symbol() {
            Ok(s) => s,
            Err(e) => {
                return Err(e);
            }
        };
        proof {
            lemma_tok_skip(old(self).stream().skip(2), 1);
            assert(self.stream() =~= old(self).stream().skip(3));
        }
        match op {
            Token::Operator(c) => {
                if c == '*' {
                    Ok(BinaryOp::Mul(left, right))
                } else if c == '+' {
                    Ok(BinaryOp::Add(left, right))
                } else if c == '>' {
                    Ok(BinaryOp::Max(left, right))
                } else {
                    Err(invalid_token("Operator"))
                }
            }
            _ => Err(invalid_token("Operator")),
        }
    }

    /// Parses `op input`: succeeds exactly when the next tokens are a
    /// unary op character and a name, and returns the denoted op.
    pub fn parse_unaryop(&mut self) -> (r: Result<UnaryOp, ParseError>)
        requires
            old(self).wf(),
        ensures
            final(self).wf(),
            final(self).table() == old(self).table(),
            final(self).stream().len() <= old(self).stream().len(),
            match r {
                Ok(u) => (match (
                    crate::tokenizer::tok_at(old(self).stream(), 0),
                    crate::tokenizer::tok_at(old(self).stream(), 1),
                ) {
                    (
                        crate::tokenizer::TokenV::Operator(c),
                        crate::tokenizer::TokenV::Symbol(nm),
                    ) => unary_matches(u, c, nm)
                        && final(self).stream() == old(self).stream().skip(2),
                    _ => false,
                }),
                Err(_) => (match (
                    crate::tokenizer::tok_at(old(self).stream(), 0),
                    crate::tokenizer::tok_at(old(self).stream(), 1),
                ) {
                    (
                        crate::tokenizer::TokenV::Operator(c),
                        crate::tokenizer::TokenV::Symbol(_),
                    ) => !is_unary_char(c),
                    _ => true,
                }),
            },
    {
        proof {
            lemma_tok_skip(old(self).stream(), 1);
        }
        let op = self.tokenizer.next();
        let input = match self.parse_symbol() {
            Ok(s) => s,
            Err(e) => {
                return Err(e);
            }
        };
        proof {
            assert(self.stream() =~= old(self).stream().skip(2));
        }
        match op {
            Token::Operator(c) => {
                if c == '*' {
                    Ok(UnaryOp::Prod(input))
                } else if c == '+' {
                    Ok(UnaryOp::Accum(input))
                } else if c == '>' {
                    Ok(UnaryOp::Relu(input))
                } else if c == '-' {
                    Ok(UnaryOp::Neg(input))
                } else if c == '/' {
                    Ok(UnaryOp::Recip(input))
                } else if c == '^' {
                    Ok(UnaryOp::Exp(input))
                } else if c == '$' {
                    Ok(UnaryOp::Log(input))
                } else {
                    Err(invalid_token("Operator"))
                }
            }
            _ => Err(invalid_token("Operator")),
        }
    }

    /// Parses the input of the identity op: succeeds exactly when the
    /// next token is a name.
    pub fn parse_noop(&mut self) -> (r: Result<NoOp, ParseError>)
        requires
            old(self).wf(),
        ensures
            final(self).wf(),
            final(self).table() == old(self).table(),
            final(self).stream().len() <= old(self).stream().len(),
            match r {
                Ok(n) => crate::tokenizer::tok_at(old(self).stream(), 0)
                    == crate::tokenizer::TokenV::Symbol(n.0.0@)
                    && final(self).stream() == old(self).stream().skip(1),
                Err(_) => !(crate::tokenizer::tok_at(old(self).stream(), 0)
                    matches crate::tokenizer::TokenV::Symbol(_)),
            },
    {
        match self.parse_symbol() {
            Ok(s) => Ok(NoOp(s)),
            Err(e) => Err(e),
        }
    }

    /// Parses `left.right`, resolving both names in the symbol table.
    /// On success the consumed tokens are a name, the dot and a name,
    /// and both handles point into the bank.
    fn parse_combinator(&mut self, expr_bank: &ExprBank) -> (r: Result<Combinator, ParseError>)
        requires
            old(self).wf(),
            table_wf(old(self).table(), expr_bank.0@.len() as int),
        ensures
            final(self).wf(),
            final(self).table() == old(self).table(),
            final(self).stream().len() <= old(self).stream().len(),
            match r {
                Ok(c) => (match (
                    crate::tokenizer::tok_at(old(self).stream(), 0),
                    crate::tokenizer::tok_at(old(self).stream(), 1),
                    crate::tokenizer::tok_at(old(self).stream(), 2),
                ) {
                    (
                        crate::tokenizer::TokenV::Symbol(_),
                        crate::tokenizer::TokenV::Dot,
                        crate::tokenizer::TokenV::Symbol(_),
                    ) => final(self).stream() == old(self).stream().skip(3),
                    _ => false,
                }) && (match c {
                    Combinator::Chain(l, r2) => l.0 < expr_bank.0@.len()
                        && r2.0 < expr_bank.0@.len(),
                }),
                Err(_) => true,
            },
    {
        proof {
            lemma_tok_skip(old(self).stream(), 1);
            lemma_tok_skip(old(self).stream(), 2);
            lemma_tok_skip(old(self).stream().skip(1), 1);
            lemma_tok_skip(old(self).stream().skip(2), 1);
        }
        let left = match self.parse_symbol() {
            Ok(s) => s,
            Err(e) => {
                return Err(e);
            }
        };
        let left_ref = match self.lookup(&left) {
            Some(r2) => r2,
            None => {
                return Err(ParseError::UnrecognizedSymbol { symbol: left });
            }
        };
        match self.tokenizer.next() {
            Token::Dot => {}
            _ => {
                return Err(invalid_token("Combinator"));
            }
        }
        let right = match self.parse_symbol() {
            Ok(s) => s,
            Err(e) => {
                return Err(e);
            }
        };
        let right_ref = match self.lookup(&right) {
            Some(r2) => r2,
            None => {
                return Err(ParseError::UnrecognizedSymbol { symbol: right });
            }
        };
        proof {
            assert(self.stream() =~= old(self).stream().skip(3));
        }
        Ok(Combinator::Chain(left_ref, right_ref))
    }

    /// The handle of a name, from the latest definition.
    fn lookup(&self, name: &Symbol) -> (r: Option<ExprRef>)
        ensures
            match r {
                Some(er) => exists|i: int| 0 <= i < self.table().len()
                    && (#[trigger] self.table()[i]).1.0 == er.0,
                None => true,
            },
    {
        let n = self.symbol_table.len();
        let mut i: usize = n;
        while i > 0
            invariant
                i <= n,
                n == self.symbol_table@.len(),
            decreases i,
        {
            if self.symbol_table[i - 1].0.0 == name.0 {
                let er = ExprRef(self.symbol_table[i - 1].1.0);
                proof {
                    assert(0 <= i - 1 < self.table().len()
                        && self.table()[i as int - 1].1.0 == er.0);
                }
                return Some(er);
            }
            i = i - 1;
        }
        None
    }

    /// Parses one name token: succeeds exactly when the next token is a
    /// name, which it consumes and returns.
    pub fn parse_symbol(&mut self) -> (r: Result<Symbol, ParseError>)
        requires
            old(self).wf(),
        ensures
            final(self).wf(),
            final(self).table() == old(self).table(),
            final(self).stream().len() <= old(self).stream().len(),
            match r {
                Ok(sym) => crate::tokenizer::tok_at(old(self).stream(), 0)
                    == crate::tokenizer::TokenV::Symbol(sym.0@)
                    && final(self).stream() == old(self).stream().skip(1),
                Err(_) => !(crate::tokenizer::tok_at(old(self).stream(), 0)
                    matches crate::tokenizer::TokenV::Symbol(_)),
            },
    {
        match self.tokenizer.next() {
            Token::Symbol(s) => {
                proof {
                    assert(crate::tokenizer::tok_at(old(self).stream(), 0)
                        matches crate::tokenizer::TokenV::Symbol(_));
                    assert(old(self).stream().len() > 0);
                }
                Ok(Symbol(s))
            }
            _ => Err(invalid_token("Symbol")),
        }
    }
}

/// The binary op characters.
pub open spec fn is_binary_char(c: char) -> bool {
    c == '*' || c == '+' || c == '>'
}

/// The unary op characters.
pub open spec fn is_unary_char(c: char) -> bool {
    c == '*' || c == '+' || c == '>' || c == '-' || c == '/' || c == '^' || c == '$'
}

/// Whether a unary op is the one the character and input name denote.
pub open spec fn unary_matches(u: UnaryOp, c: char, name: Seq<char>) -> bool {
    match u {
        UnaryOp::Prod(s) => c == '*' && s.0@ == name,
        UnaryOp::Accum(s) => c == '+' && s.0@ == name,
        UnaryOp::Relu(s) => c == '>' && s.0@ == name,
        UnaryOp::Neg(s) => c == '-' && s.0@ == name,
        UnaryOp::Recip(s) => c == '/' && s.0@ == name,
        UnaryOp::Exp(s) => c == '^' && s.0@ == name,
        UnaryOp::Log(s) => c == '$' && s.0@ == name,
    }
}

/// Whether a binary op is the one the character and input names denote.
pub open spec fn binary_matches(b: BinaryOp, c: char, left: Seq<char>, right: Seq<char>) -> bool {
    match b {
        BinaryOp::Mul(l, r) => c == '*' && l.0@ == left && r.0@ == right,
        BinaryOp::Add(l, r) => c == '+' && l.0@ == left && r.0@ == right,
        BinaryOp::Max(l, r) => c == '>' && l.0@ == left && r.0@ == right,
    }
}

/// The tokens a scalar op reads from the front of the stream, or `None`
/// when the op does not denote that stream's front.
pub open spec fn scalarop_form(op: ScalarOp, ts: Seq<crate::tokenizer::TokenV>) -> Option<int> {
    match op {
        ScalarOp::UnaryOp(u) => (match (
            crate::tokenizer::tok_at(ts, 0),
            crate::tokenizer::tok_at(ts, 1),
        ) {
            (
                crate::tokenizer::TokenV::Operator(c),
                crate::tokenizer::TokenV::Symbol(nm),
            ) => if unary_matches(u, c, nm) {
                Some(2)
            } else {
                None
            },
            _ => None,
        }),
        ScalarOp::BinaryOp(b) => (match (
            crate::tokenizer::tok_at(ts, 0),
            crate::tokenizer::tok_at(ts, 1),
            crate::tokenizer::tok_at(ts, 2),
        ) {
            (
                crate::tokenizer::TokenV::Symbol(lnm),
                crate::tokenizer::TokenV::Operator(c),
                crate::tokenizer::TokenV::Symbol(rnm),
            ) => if binary_matches(b, c, lnm, rnm) {
                Some(3)
            } else {
                None
            },
            _ => None,
        }),
        ScalarOp::NoOp(NoOp(sym)) => (match crate::tokenizer::tok_at(ts, 0) {
            crate::tokenizer::TokenV::Symbol(nm) => if sym.0@ == nm {
                Some(1)
            } else {
                None
            },
            _ => None,
        }),
    }
}

/// One character of a loop-order name: a prime bumps the rank of the
/// last entry, any other character starts a new entry at rank zero.
pub open spec fn order_step(acc: Seq<(char, usize)>, ch: char) -> Option<Seq<(char, usize)>> {
    if ch == '\'' {
        if acc.len() == 0 {
            None
        } else if acc.last().1 == usize::MAX {
            None
        } else {
            Some(acc.update(acc.len() - 1, (acc.last().0, (acc.last().1 + 1) as usize)))
        }
    } else {
        Some(acc.push((ch, 0)))
    }
}

/// The loop-order entries after reading the characters of one name.
pub open spec fn order_fold(acc: Seq<(char, usize)>, cs: Seq<char>) -> Option<
    Seq<(char, usize)>,
>
    decreases cs.len(),
{
    if cs.len() == 0 {
        Some(acc)
    } else {
        match order_step(acc, cs[0]) {
            Some(a) => order_fold(a, cs.skip(1)),
            None => None,
        }
    }
}

/// The name tokens a loop order consumes: the leading names that do not
/// start the next expression.
pub open spec fn order_take(ts: Seq<crate::tokenizer::TokenV>) -> Seq<Seq<char>>
    decreases ts.len(),
{
    if ts.len() == 0 {
        Seq::empty()
    } else {
        match (crate::tokenizer::tok_at(ts, 0), crate::tokenizer::tok_at(ts, 1)) {
            (crate::tokenizer::TokenV::Symbol(nm), t1) => if (t1
                matches crate::tokenizer::TokenV::Colon)
                || (t1 matches crate::tokenizer::TokenV::Dot)
                || (t1 matches crate::tokenizer::TokenV::Squiggle) {
                Seq::empty()
            } else {
                seq![nm] + order_take(ts.skip(1))
            },
            _ => Seq::empty(),
        }
    }
}

/// The loop-order entries after reading a list of names.
pub open spec fn order_value(acc: Seq<(char, usize)>, syms: Seq<Seq<char>>) -> Option<
    Seq<(char, usize)>,
>
    decreases syms.len(),
{
    if syms.len() == 0 {
        Some(acc)
    } else {
        match order_fold(acc, syms[0]) {
            Some(a) => order_value(a, syms.skip(1)),
            None => None,
        }
    }
}

/// The character fold splits over concatenation.
proof fn lemma_order_fold_concat(acc: Seq<(char, usize)>, a: Seq<char>, b: Seq<char>)
    ensures
        order_fold(acc, a + b) == (match order_fold(acc, a) {
            Some(x) => order_fold(x, b),
            None => None::<Seq<(char, usize)>>,
        }),
    decreases a.len(),
{
    if a.len() == 0 {
        assert(a + b =~= b);
    } else {
        assert((a + b)[0] == a[0]);
        assert((a + b).skip(1) =~= a.skip(1) + b);
        match order_step(acc, a[0]) {
            Some(x) => {
                lemma_order_fold_concat(x, a.skip(1), b);
            }
            None => {}
        }
    }
}

/// The name fold splits over concatenation.
proof fn lemma_order_value_concat(
    acc: Seq<(char, usize)>,
    a: Seq<Seq<char>>,
    b: Seq<Seq<char>>,
)
    ensures
        order_value(acc, a + b) == (match order_value(acc, a) {
            Some(x) => order_value(x, b),
            None => None::<Seq<(char, usize)>>,
        }),
    decreases a.len(),
{
    if a.len() == 0 {
        assert(a + b =~= b);
    } else {
        assert((a + b)[0] == a[0]);
        assert((a + b).skip(1) =~= a.skip(1) + b);
        match order_fold(acc, a[0]) {
            Some(x) => {
                lemma_order_value_concat(x, a.skip(1), b);
            }
            None => {}
        }
    }
}

/// A failing character fails the whole fold.
proof fn lemma_fold_prefix_none(acc: Seq<(char, usize)>, cs: Seq<char>, p: int)
    requires
        0 <= p < cs.len(),
        (match order_fold(acc, cs.take(p)) {
            Some(a) => order_step(a, cs[p]) matches None,
            None => true,
        }),
    ensures
        order_fold(acc, cs) == None::<Seq<(char, usize)>>,
{
    lemma_order_fold_concat(acc, cs.take(p), cs.skip(p));
    assert(cs.take(p) + cs.skip(p) =~= cs);
    match order_fold(acc, cs.take(p)) {
        Some(a) => {
            assert(cs.skip(p)[0] == cs[p]);
        }
        None => {}
    }
}

/// Whether an expression refers only to bank entries below `len`.
pub open spec fn expr_refs_below(e: &Expr, len: int) -> bool {
    match e {
        Expr::Combinator(Combinator::Chain(l, r)) => l.0 < len && r.0 < len,
        Expr::Index(_) => true,
    }
}

/// Whether an expression's schedule has unique split keys.
pub open spec fn expr_schedule_wf(e: &Expr) -> bool {
    match e {
        Expr::Index(ie) => ie.schedule.wf(),
        Expr::Combinator(_) => true,
    }
}

/// Binds an axis in a split list, replacing an existing entry.
fn splits_insert(splits: &mut Splits, c: char, factors: Vec<usize>)
    requires
        old(splits).wf(),
    ensures
        final(splits).wf(),
{
    let n = splits.0.len();
    let mut i: usize = 0;
    while i < n
        invariant
            n == splits.0@.len(),
            i <= n,
            splits.wf(),
            forall|j: int| 0 <= j < i ==> (#[trigger] splits.0@[j]).0 != c,
        decreases n - i,
    {
        if splits.0[i].0 == c {
            let ghost pre = splits.0@;
            splits.0.set(i, (c, factors));
            proof {
                assert forall|a: int, b: int|
                    0 <= a < b < splits.0@.len() implies
                    (#[trigger] splits.0@[a]).0 != (#[trigger] splits.0@[b]).0 by {
                    assert(pre[a].0 == if a == i { c } else { splits.0@[a].0 });
                }
            }
            return;
        }
        i = i + 1;
    }
    let ghost pre = splits.0@;
    splits.0.push((c, factors));
    proof {
        assert forall|a: int, b: int|
            0 <= a < b < splits.0@.len() implies
            (#[trigger] splits.0@[a]).0 != (#[trigger] splits.0@[b]).0 by {
            if b < pre.len() {
                assert(splits.0@[a] == pre[a] && splits.0@[b] == pre[b]);
            } else {
                assert(splits.0@[b].0 == c);
                assert(splits.0@[a] == pre[a]);
            }
        }
    }
}

/// The token after a skip is the token one position on.
proof fn lemma_tok_skip(s: Seq<crate::tokenizer::TokenV>, n: int)
    requires
        n >= 0,
    ensures
        forall|k: int| k >= 0 ==> crate::tokenizer::tok_at(s.skip(n), k)
            == crate::tokenizer::tok_at(s, n + k) || s.len() < n,
{
    if s.len() >= n {
        assert forall|k: int| k >= 0 implies crate::tokenizer::tok_at(s.skip(n), k)
            == crate::tokenizer::tok_at(s, n + k) || s.len() < n by {
            if n + k < s.len() {
                assert(s.skip(n)[k] == s[n + k]);
            }
        }
    }
}

/// Appending an expression that refers only to earlier entries keeps
/// the bank acyclic and its schedules well formed.
proof fn lemma_bank_push(pre: Seq<Expr>, e: Expr, now: Seq<Expr>)
    requires
        now == pre.push(e),
        forall|i: int| 0 <= i < pre.len() ==> (match #[trigger] pre[i] {
            Expr::Combinator(Combinator::Chain(l, r)) => l.0 < i && r.0 < i,
            Expr::Index(_) => true,
        }),
        forall|i: int| 0 <= i < pre.len() ==> (match #[trigger] pre[i] {
            Expr::Index(ie) => ie.schedule.wf(),
            Expr::Combinator(_) => true,
        }),
        expr_refs_below(&e, pre.len() as int),
        expr_schedule_wf(&e),
    ensures
        forall|i: int| 0 <= i < now.len() ==> (match #[trigger] now[i] {
            Expr::Combinator(Combinator::Chain(l, r)) => l.0 < i && r.0 < i,
            Expr::Index(_) => true,
        }),
        forall|i: int| 0 <= i < now.len() ==> (match #[trigger] now[i] {
            Expr::Index(ie) => ie.schedule.wf(),
            Expr::Combinator(_) => true,
        }),
{
    assert forall|i: int| 0 <= i < now.len() implies (match #[trigger] now[i] {
        Expr::Combinator(Combinator::Chain(l, r)) => l.0 < i && r.0 < i,
        Expr::Index(_) => true,
    }) by {
        if i < pre.len() {
            assert(now[i] == pre[i]);
        } else {
            assert(now[i] == e);
        }
    }
    assert forall|i: int| 0 <= i < now.len() implies (match #[trigger] now[i] {
        Expr::Index(ie) => ie.schedule.wf(),
        Expr::Combinator(_) => true,
    }) by {
        if i < pre.len() {
            assert(now[i] == pre[i]);
        } else {
            assert(now[i] == e);
        }
    }
}

/// An `InvalidToken` error with the expected form.
fn invalid_token(expected: &str) -> (r: ParseError)
{
    ParseError::InvalidToken { expected: String::from_str(expected) }
}

} // verus!
