//! Abstract syntax for the index-notation language.
//!
//! A program is a sequence of named expressions plus one final anonymous
//! expression.  All expressions live in an append-only `ExprBank`; an
//! `ExprRef` is an index into it.

use vstd::prelude::*;
use vstd::string::StrSliceExecFns;

verus! {

/// A name: either a component name or an index string such as `ik`,
/// whose characters are iteration axes.
#[derive(Clone, Debug)]
pub struct Symbol(pub String);

/// An index into the `ExprBank`.
#[derive(Clone, Copy, Debug)]
pub struct ExprRef(pub usize);

/// Element-wise binary operations over two indexed inputs.
#[derive(Clone, Debug)]
pub enum BinaryOp {
    Mul(Symbol, Symbol),
    Add(Symbol, Symbol),
    Max(Symbol, Symbol),
}

/// Unary operations: reductions over the axes missing from the output
/// index, and element-wise maps.
#[derive(Clone, Debug)]
pub enum UnaryOp {
    Prod(Symbol),
    Accum(Symbol),
    Relu(Symbol),
    Neg(Symbol),
    Recip(Symbol),
    Exp(Symbol),
    Log(Symbol),
}

/// The identity transform; still useful as a leaf placeholder.
#[derive(Clone, Debug)]
pub struct NoOp(pub Symbol);

/// A scalar operation together with its input index string(s).
#[derive(Clone, Debug)]
pub enum ScalarOp {
    BinaryOp(BinaryOp),
    UnaryOp(UnaryOp),
    NoOp(NoOp),
}

/// A per-axis split list.  Keys are axis characters; values are the split
/// factors of that axis, outermost first.  Keys are unique.
#[derive(Clone, Debug)]
pub struct Splits(pub Vec<(char, Vec<usize>)>);

/// A schedule: per-axis splits and a loop ordering `(axis, rank)`, where
/// rank 0 is the base loop of the axis and rank k+1 its k-th split.
/// An empty `loop_order` means one loop per unique axis in sorted order.
#[derive(Clone, Debug)]
pub struct Schedule {
    pub splits: Splits,
    pub loop_order: Vec<(char, usize)>,
}

/// A scalar operation, its output index string, and its schedule.
#[derive(Clone, Debug)]
pub struct IndexExpr {
    pub op: ScalarOp,
    pub out: Symbol,
    pub schedule: Schedule,
}

/// Combines two expressions already in the bank.
#[derive(Clone, Debug)]
pub enum Combinator {
    /// `Chain(l, r)`: feed the output of `l` into the leftmost input of `r`.
    Chain(ExprRef, ExprRef),
}

#[derive(Clone, Debug)]
pub enum Expr {
    Index(IndexExpr),
    Combinator(Combinator),
}

/// Holds all `Expr`s of one parse, in order of definition.
#[derive(Clone, Debug)]
pub struct ExprBank(pub Vec<Expr>);

/// A named expression of the source program.
#[derive(Clone, Debug)]
pub struct NamedExpr {
    pub ident: Symbol,
    pub expr_ref: ExprRef,
}

/// The parsed program: its named expressions and the reference to the
/// final expression.
#[derive(Clone, Debug)]
pub struct AST(pub Vec<NamedExpr>, pub ExprRef);

/// The mathematical value of a `Schedule`: split factor lists by axis and
/// the loop ordering.
pub struct ScheduleV {
    pub splits: Seq<(char, Seq<usize>)>,
    pub loop_order: Seq<(char, usize)>,
}

impl View for Splits {
    type V = Seq<(char, Seq<usize>)>;

    open spec fn view(&self) -> Seq<(char, Seq<usize>)> {
        Seq::new(self.0@.len(), |i: int| (self.0@[i].0, self.0@[i].1@))
    }
}

impl View for Schedule {
    type V = ScheduleV;

    open spec fn view(&self) -> ScheduleV {
        ScheduleV { splits: self.splits@, loop_order: self.loop_order@ }
    }
}

impl Symbol {
    /// The characters of the name, one axis per character for an index
    /// string.
    pub fn chars_vec(&self) -> (r: Vec<char>)
        ensures
            r@ == self.0@,
    {
        let s: &str = self.0.as_str();
        let n: usize = s.unicode_len();
        let mut r: Vec<char> = Vec::new();
        let mut i: usize = 0;
        while i < n
            invariant
                i <= n,
                n == s@.len(),
                s@ == self.0@,
                r@ == s@.subrange(0, i as int),
            decreases n - i,
        {
            let c = s.get_char(i);
            r.push(c);
            i = i + 1;
            proof {
                assert(r@ =~= s@.subrange(0, i as int));
            }
        }
        proof {
            assert(r@ =~= self.0@);
        }
        r
    }
}

impl Splits {
    /// The split keys are unique, so the list models a map.
    pub open spec fn wf(&self) -> bool {
        forall|i: int, j: int|
            0 <= i < j < self.0@.len() ==> self.0@[i].0 != self.0@[j].0
    }

    /// Whether some entry carries this axis.
    pub open spec fn spec_contains(&self, c: char) -> bool {
        exists|i: int| 0 <= i < self.0@.len() && self.0@[i].0 == c
    }

    /// The factor list of an axis, or the empty sequence if absent.
    pub open spec fn spec_factors(&self, c: char) -> Seq<usize> {
        if self.spec_contains(c) {
            self.0@[choose|i: int| 0 <= i < self.0@.len() && self.0@[i].0 == c].1@
        } else {
            Seq::empty()
        }
    }

    /// Looks up the split factors of an axis.
    pub fn get(&self, c: char) -> (r: Option<&Vec<usize>>)
        requires
            self.wf(),
        ensures
            match r {
                Some(v) => self.spec_contains(c) && v@ == self.spec_factors(c),
                None => !self.spec_contains(c),
            },
    {
        let mut i: usize = 0;
        while i < self.0.len()
            invariant
                i <= self.0@.len(),
                self.wf(),
                forall|j: int| 0 <= j < i ==> self.0@[j].0 != c,
            decreases self.0@.len() - i,
        {
            if self.0[i].0 == c {
                return Some(&self.0[i].1);
            }
            i = i + 1;
        }
        None
    }

    /// An empty split map.
    pub fn empty() -> (r: Splits)
        ensures
            r.0@.len() == 0,
            r.wf(),
    {
        Splits(Vec::new())
    }
}

impl Schedule {
    pub open spec fn wf(&self) -> bool {
        self.splits.wf()
    }

    /// The schedule every unscheduled expression carries: no splits and
    /// the default loop order.
    pub fn empty() -> (r: Schedule)
        ensures
            r.splits.0@.len() == 0,
            r.loop_order@.len() == 0,
            r.wf(),
    {
        Schedule { splits: Splits::empty(), loop_order: Vec::new() }
    }
}

/// Every `Chain` in the bank refers only to strictly earlier entries, so
/// the bank is acyclic and recursion over it terminates.
pub open spec fn bank_wf(bank: &ExprBank) -> bool {
    forall|i: int| 0 <= i < bank.0@.len() ==> (match #[trigger] bank.0@[i] {
        Expr::Combinator(Combinator::Chain(l, r)) => l.0 < i && r.0 < i,
        Expr::Index(_) => true,
    })
}

/// Every schedule in the bank has unique split keys.
pub open spec fn bank_schedules_wf(bank: &ExprBank) -> bool {
    forall|i: int| 0 <= i < bank.0@.len() ==> (match #[trigger] bank.0@[i] {
        Expr::Index(ie) => ie.schedule.wf(),
        Expr::Combinator(_) => true,
    })
}

} // verus!
