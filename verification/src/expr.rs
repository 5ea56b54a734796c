use crate::cell_id::CellId;
use crate::error::{with_err_view, Error, SpecErr};
use crate::numeric::{
    add_bits, div_bits, mul_bits, neg_bits, num_add, num_div, num_mul, num_neg, num_pow, num_sub,
    pow_bits, sub_bits,
};
use crate::table::AssocMap;
use crate::topological::{blocked, complete_order};
use vstd::prelude::*;

verus! {

/// A formula operator: unary negation, or one of the four arithmetic
/// operations, or exponentiation.
#[derive(Clone, Copy, PartialEq, Eq, Structural, Debug)]
pub enum Op {
    Neg,
    Add,
    Sub,
    Mul,
    Div,
    Pow,
}

impl Op {
    /// How strongly the operator binds: addition and subtraction weakest,
    /// then multiplication and division, then negation and exponentiation.
    pub fn precedence(&self) -> (r: u8)
        ensures
            r == self.precedence_spec(),
    {
        match self {
            Op::Add | Op::Sub => 1,
            Op::Mul | Op::Div => 2,
            Op::Neg | Op::Pow => 3,
        }
    }

    /// The operator's binding strength.
    pub open spec fn precedence_spec(self) -> u8 {
        match self {
            Op::Add | Op::Sub => 1,
            Op::Mul | Op::Div => 2,
            Op::Neg | Op::Pow => 3,
        }
    }

    /// All operators group to the left except negation and exponentiation.
    pub fn is_left_associative(&self) -> (r: bool)
        ensures
            r == self.is_left_associative_spec(),
    {
        !(*self == Op::Neg || *self == Op::Pow)
    }

    /// Whether the operator groups to the left.
    pub open spec fn is_left_associative_spec(self) -> bool {
        !(self == Op::Neg || self == Op::Pow)
    }

    /// The operator a one-character symbol denotes; `Neg` is never produced
    /// here, a `-` reads as subtraction until the parser reinterprets it.
    pub open spec fn from_symbol_spec(s: Seq<char>) -> Option<Op> {
        if s == seq!['+'] {
            Some(Op::Add)
        } else if s == seq!['-'] {
            Some(Op::Sub)
        } else if s == seq!['*'] {
            Some(Op::Mul)
        } else if s == seq!['/'] {
            Some(Op::Div)
        } else if s == seq!['^'] {
            Some(Op::Pow)
        } else {
            None
        }
    }

    /// Reads one of the symbols `+ - * / ^`; any other text is rejected as
    /// an invalid operator.
    pub fn try_from_symbol(s: &str) -> (r: Result<Op, Error>)
        ensures
            (match Op::from_symbol_spec(s@) {
                Some(op) => r == Ok::<Op, Error>(op),
                None => (r matches Err(e) && e@ == (SpecErr::InvalidOperator { symbol: s@ })),
            }),
    {
        let chars = crate::text::chars_of_str(s);
        if chars.len() == 1 {
            let c = chars[0];
            proof {
                assert(s@ =~= seq![s@[0]]);
            }
            match c {
                '+' => {
                    return Ok(Op::Add);
                },
                '-' => {
                    return Ok(Op::Sub);
                },
                '*' => {
                    return Ok(Op::Mul);
                },
                '/' => {
                    return Ok(Op::Div);
                },
                '^' => {
                    return Ok(Op::Pow);
                },
                _ => {},
            }
        }
        proof {
            if s@.len() == 1 {
                assert(s@ =~= seq![s@[0]]);
            }
            assert(Op::from_symbol_spec(s@) is None) by {
                if s@ == seq!['+'] || s@ == seq!['-'] || s@ == seq!['*'] || s@ == seq!['/'] || s@
                    == seq!['^'] {
                    assert(s@.len() == 1);
                }
            }
        }
        Err(Error::InvalidOperator { symbol: s.to_owned() })
    }
}

/// The table of cells: each address's parsed expression.
pub type Cells = AssocMap<Expr>;

/// The numeric values of already computed cells, as raw double bits.
pub type Values = AssocMap<u64>;

/// A cell's parsed content: an opaque text, a number (the raw bits of an
/// IEEE-754 double), a reference to another cell, or an operator applied
/// to argument expressions.
#[derive(Debug, PartialEq)]
pub enum Expr {
    Str(String),
    Num(u64),
    CellRef(CellId),
    Apply { op: Op, args: Vec<Expr> },
}

/// Specification-level model of [`Expr`]: texts are character sequences and
/// argument lists are sequences.
pub enum SpecExpr {
    Str(Seq<char>),
    Num(u64),
    CellRef(CellId),
    Apply { op: Op, args: Seq<SpecExpr> },
}

/// The model of an expression.
pub open spec fn expr_view(e: Expr) -> SpecExpr
    decreases e,
{
    match e {
        Expr::Str(s) => SpecExpr::Str(s@),
        Expr::Num(n) => SpecExpr::Num(n),
        Expr::CellRef(id) => SpecExpr::CellRef(id),
        Expr::Apply { op, args } => SpecExpr::Apply {
            op,
            args: expr_view_seq(args@, args@.len() as int),
        },
    }
}

/// The models of the first `k` expressions of a list.
pub open spec fn expr_view_seq(s: Seq<Expr>, k: int) -> Seq<SpecExpr>
    decreases s, k,
{
    if k <= 0 || k > s.len() {
        Seq::empty()
    } else {
        expr_view_seq(s, k - 1).push(expr_view(s[k - 1]))
    }
}

impl View for Expr {
    type V = SpecExpr;

    open spec fn view(&self) -> SpecExpr {
        expr_view(*self)
    }
}

/// The model of a whole table: each address's expression model.
pub open spec fn table_view(m: Map<CellId, Expr>) -> Map<CellId, SpecExpr> {
    Map::new(|k: CellId| m.contains_key(k), |k: CellId| expr_view(m[k]))
}

/// The first `k` models are the models of the first `k` expressions.
pub proof fn lemma_expr_view_seq(s: Seq<Expr>, k: int)
    requires
        0 <= k <= s.len(),
    ensures
        expr_view_seq(s, k).len() == k,
        forall|i: int| 0 <= i < k ==> expr_view_seq(s, k)[i] == expr_view(s[i]),
    decreases k,
{
    if k > 0 {
        lemma_expr_view_seq(s, k - 1);
    }
}

/// How many nodes an expression holds; each argument counts within its
/// application.
pub open spec fn size_of(e: SpecExpr) -> nat
    decreases e,
{
    match e {
        SpecExpr::Apply { args, .. } => 1 + size_seq(args, args.len() as int),
        _ => 1,
    }
}

/// The total size of the first `k` expressions of a sequence.
pub open spec fn size_seq(s: Seq<SpecExpr>, k: int) -> nat
    decreases s, k,
{
    if k <= 0 || k > s.len() {
        0
    } else {
        size_seq(s, k - 1) + size_of(s[k - 1])
    }
}

/// Each element's size is bounded by the size of its sequence prefix.
proof fn lemma_size_seq_elem(s: Seq<SpecExpr>, k: int, i: int)
    requires
        0 <= i < k <= s.len(),
    ensures
        size_of(s[i]) <= size_seq(s, k),
    decreases k,
{
    if i < k - 1 {
        lemma_size_seq_elem(s, k - 1, i);
    }
}

/// Whether an expression reads the given address: some `CellRef` leaf in
/// it carries that address.
pub open spec fn is_dep(e: SpecExpr, id: CellId) -> bool
    decreases e,
{
    match e {
        SpecExpr::Str(_) => false,
        SpecExpr::Num(_) => false,
        SpecExpr::CellRef(x) => x == id,
        SpecExpr::Apply { args, .. } => is_dep_prefix(args, args.len() as int, id),
    }
}

/// Whether one of the first `k` expressions of a sequence reads the given
/// address.
pub open spec fn is_dep_prefix(s: Seq<SpecExpr>, k: int, id: CellId) -> bool
    decreases s, k,
{
    if k <= 0 || k > s.len() {
        false
    } else {
        is_dep_prefix(s, k - 1, id) || is_dep(s[k - 1], id)
    }
}

/// The addresses an expression reads, leaf by leaf, arguments left to
/// right.
pub open spec fn deps_seq(e: SpecExpr) -> Seq<CellId>
    decreases e,
{
    match e {
        SpecExpr::Str(_) => Seq::empty(),
        SpecExpr::Num(_) => Seq::empty(),
        SpecExpr::CellRef(x) => seq![x],
        SpecExpr::Apply { args, .. } => deps_seq_prefix(args, args.len() as int),
    }
}

/// The addresses read by the first `k` expressions of a sequence, in
/// order.
pub open spec fn deps_seq_prefix(s: Seq<SpecExpr>, k: int) -> Seq<CellId>
    decreases s, k,
{
    if k <= 0 || k > s.len() {
        Seq::empty()
    } else {
        deps_seq_prefix(s, k - 1) + deps_seq(s[k - 1])
    }
}

/// One sequence holds an element exactly when one of its two parts does.
proof fn lemma_concat_contains<A>(a: Seq<A>, b: Seq<A>, x: A)
    ensures
        (a + b).contains(x) <==> a.contains(x) || b.contains(x),
{
    if (a + b).contains(x) {
        let i = choose|i: int| 0 <= i < (a + b).len() && (a + b)[i] == x;
        if i < a.len() {
            assert(a[i] == x);
        } else {
            assert(b[i - a.len()] == x);
        }
    }
    if a.contains(x) {
        let i = choose|i: int| 0 <= i < a.len() && a[i] == x;
        assert((a + b)[i] == x);
    }
    if b.contains(x) {
        let i = choose|i: int| 0 <= i < b.len() && b[i] == x;
        assert((a + b)[a.len() + i] == x);
    }
}

/// The listed dependencies of a prefix are exactly the addresses it reads.
proof fn lemma_deps_seq_prefix_iff(s: Seq<SpecExpr>, k: int, id: CellId)
    requires
        0 <= k <= s.len(),
    ensures
        deps_seq_prefix(s, k).contains(id) <==> is_dep_prefix(s, k, id),
    decreases s, k,
{
    if k > 0 {
        lemma_deps_seq_prefix_iff(s, k - 1, id);
        lemma_deps_seq_iff(s[k - 1], id);
        lemma_concat_contains(deps_seq_prefix(s, k - 1), deps_seq(s[k - 1]), id);
    }
}

/// The listed dependencies of an expression are exactly the addresses it
/// reads.
pub proof fn lemma_deps_seq_iff(e: SpecExpr, id: CellId)
    ensures
        deps_seq(e).contains(id) <==> is_dep(e, id),
    decreases e,
{
    match e {
        SpecExpr::Str(_) => {},
        SpecExpr::Num(_) => {},
        SpecExpr::CellRef(x) => {
            if x == id {
                assert(deps_seq(e)[0] == id);
            } else {
                assert(forall|i: int| 0 <= i < deps_seq(e).len() ==> deps_seq(e)[i] == x);
            }
        },
        SpecExpr::Apply { args, .. } => {
            lemma_deps_seq_prefix_iff(args, args.len() as int, id);
        },
    }
}

/// What evaluating the first `k` arguments yields, left to right: their
/// values, or the first failure.
pub open spec fn eval_args_spec(s: Seq<SpecExpr>, ctx: Map<CellId, u64>, k: int) -> Result<
    Seq<u64>,
    SpecErr,
>
    decreases s, k,
{
    if k <= 0 || k > s.len() {
        Ok(Seq::empty())
    } else {
        match eval_args_spec(s, ctx, k - 1) {
            Err(e) => Err(e),
            Ok(vs) => match eval_spec(s[k - 1], ctx) {
                Err(e) => Err(e),
                Ok(v) => Ok(vs.push(v)),
            },
        }
    }
}

/// The bits a binary operator yields on two numbers given as bits; `Neg`
/// never reaches this, its arm mirrors the unary case.
pub open spec fn apply_bin_spec(op: Op, a: u64, b: u64) -> u64 {
    match op {
        Op::Add => add_bits(a, b),
        Op::Sub => sub_bits(a, b),
        Op::Mul => mul_bits(a, b),
        Op::Div => div_bits(a, b),
        Op::Pow => pow_bits(a, b),
        Op::Neg => neg_bits(a),
    }
}

/// What evaluating an expression against numeric cell values yields: a
/// number as bits, or the first failure found.  Numbers stand for
/// themselves; a reference reads the referenced cell's value and fails on
/// a cell without one; a text cannot be evaluated; negation flips the sign
/// of its single argument; a binary operator needs exactly two arguments,
/// which are evaluated left to right before the arity is checked.
pub open spec fn eval_spec(e: SpecExpr, ctx: Map<CellId, u64>) -> Result<u64, SpecErr>
    decreases e,
{
    match e {
        SpecExpr::Num(n) => Ok(n),
        SpecExpr::Str(_) => Err(SpecErr::StringEval),
        SpecExpr::CellRef(id) => if ctx.contains_key(id) {
            Ok(ctx[id])
        } else {
            Err(SpecErr::UnresolvedRef { id })
        },
        SpecExpr::Apply { op, args } => if op == Op::Neg {
            if args.len() < 1 {
                Err(SpecErr::BadArity { op })
            } else {
                match eval_spec(args[0], ctx) {
                    Ok(v) => Ok(neg_bits(v)),
                    Err(e) => Err(e),
                }
            }
        } else {
            match eval_args_spec(args, ctx, args.len() as int) {
                Err(e) => Err(e),
                Ok(vs) => if vs.len() == 2 {
                    Ok(apply_bin_spec(op, vs[0], vs[1]))
                } else {
                    Err(SpecErr::BadArity { op })
                },
            }
        },
    }
}

/// Successfully evaluated argument prefixes carry one value per argument.
proof fn lemma_eval_args_len(s: Seq<SpecExpr>, ctx: Map<CellId, u64>, k: int)
    requires
        0 <= k <= s.len(),
        eval_args_spec(s, ctx, k) is Ok,
    ensures
        eval_args_spec(s, ctx, k)->Ok_0.len() == k,
    decreases k,
{
    if k > 0 {
        lemma_eval_args_len(s, ctx, k - 1);
    }
}

/// A failed argument prefix fails every longer prefix the same way.
proof fn lemma_eval_args_err_extends(s: Seq<SpecExpr>, ctx: Map<CellId, u64>, k: int, j: int)
    requires
        0 <= k <= j <= s.len(),
        eval_args_spec(s, ctx, k) is Err,
    ensures
        eval_args_spec(s, ctx, j) == eval_args_spec(s, ctx, k),
    decreases j - k,
{
    if j > k {
        lemma_eval_args_err_extends(s, ctx, k, j - 1);
    }
}

/// The bits a binary operator yields on two numbers given as bits.
fn apply_bin(op: Op, a: u64, b: u64) -> (r: u64)
    ensures
        r == apply_bin_spec(op, a, b),
{
    match op {
        Op::Add => num_add(a, b),
        Op::Sub => num_sub(a, b),
        Op::Mul => num_mul(a, b),
        Op::Div => num_div(a, b),
        Op::Pow => num_pow(a, b),
        Op::Neg => num_neg(a),
    }
}

impl Expr {
    /// The addresses that need values before this expression can be
    /// evaluated: every cell the expression references, in some order.
    pub fn get_deps(&self) -> (r: Vec<CellId>)
        ensures
            r@ == deps_seq(self@),
            forall|id: CellId| r@.contains(id) <==> is_dep(self@, id),
    {
        let r = self.push_deps(Vec::new());
        proof {
            assert(Seq::<CellId>::empty() + deps_seq(self@) =~= deps_seq(self@));
            assert forall|id: CellId| r@.contains(id) <==> is_dep(self@, id) by {
                lemma_deps_seq_iff(self@, id);
            }
        }
        r
    }

    /// The given vector with every address this expression references
    /// appended to it, in reading order.
    fn push_deps(&self, out: Vec<CellId>) -> (r: Vec<CellId>)
        ensures
            r@ == out@ + deps_seq(self@),
        decreases size_of(self@),
    {
        match self {
            Expr::Str(_) => {
                proof {
                    assert(out@ + deps_seq(self@) =~= out@);
                }
                out
            },
            Expr::Num(_) => {
                proof {
                    assert(out@ + deps_seq(self@) =~= out@);
                }
                out
            },
            Expr::CellRef(id) => {
                let ghost start = out@;
                let mut r = out;
                r.push(*id);
                proof {
                    assert(deps_seq(self@) == seq![*id]);
                    assert(r@ =~= start + seq![*id]);
                }
                r
            },
            Expr::Apply { op, args } => {
                let ghost start = out@;
                let ghost vargs = expr_view_seq(args@, args@.len() as int);
                proof {
                    lemma_expr_view_seq(args@, args@.len() as int);
                }
                let mut r = out;
                proof {
                    assert(r@ =~= start + deps_seq_prefix(vargs, 0));
                }
                let n = args.len();
                let mut k: usize = 0;
                while k < n
                    invariant
                        k <= n,
                        n == args@.len(),
                        vargs == expr_view_seq(args@, args@.len() as int),
                        vargs.len() == args@.len(),
                        forall|i: int| 0 <= i < vargs.len() ==> vargs[i] == expr_view(args@[i]),
                        self@ == (SpecExpr::Apply { op: *op, args: vargs }),
                        size_of(self@) == 1 + size_seq(vargs, vargs.len() as int),
                        r@ == start + deps_seq_prefix(vargs, k as int),
                    decreases n - k,
                {
                    proof {
                        lemma_size_seq_elem(vargs, vargs.len() as int, k as int);
                    }
                    let ghost mid = r@;
                    r = args[k].push_deps(r);
                    k += 1;
                    proof {
                        assert(r@ =~= start + deps_seq_prefix(vargs, k as int)) by {
                            assert(r@ == mid + deps_seq(vargs[k - 1]));
                            assert(deps_seq_prefix(vargs, k as int) == deps_seq_prefix(vargs, k - 1)
                                + deps_seq(vargs[k - 1]));
                        }
                    }
                }
                proof {
                    assert(deps_seq(self@) == deps_seq_prefix(vargs, vargs.len() as int));
                }
                r
            },
        }
    }

    /// A structurally identical copy of the expression.
    pub fn clone_expr(&self) -> (r: Expr)
        ensures
            r@ == self@,
        decreases size_of(self@),
    {
        match self {
            Expr::Str(s) => Expr::Str(s.clone()),
            Expr::Num(n) => Expr::Num(*n),
            Expr::CellRef(id) => Expr::CellRef(*id),
            Expr::Apply { op, args } => {
                let ghost vargs = expr_view_seq(args@, args@.len() as int);
                proof {
                    lemma_expr_view_seq(args@, args@.len() as int);
                }
                let n = args.len();
                let mut out: Vec<Expr> = Vec::new();
                let mut k: usize = 0;
                while k < n
                    invariant
                        k <= n,
                        n == args@.len(),
                        out@.len() == k,
                        vargs == expr_view_seq(args@, args@.len() as int),
                        vargs.len() == args@.len(),
                        forall|i: int| 0 <= i < vargs.len() ==> vargs[i] == expr_view(args@[i]),
                        self@ == (SpecExpr::Apply { op: *op, args: vargs }),
                        size_of(self@) == 1 + size_seq(vargs, vargs.len() as int),
                        forall|i: int| 0 <= i < k ==> expr_view(#[trigger] out@[i]) == vargs[i],
                    decreases n - k,
                {
                    proof {
                        lemma_size_seq_elem(vargs, vargs.len() as int, k as int);
                    }
                    let c = args[k].clone_expr();
                    out.push(c);
                    k += 1;
                }
                let r = Expr::Apply { op: *op, args: out };
                proof {
                    lemma_expr_view_seq(out@, out@.len() as int);
                    assert(expr_view_seq(out@, out@.len() as int) =~= vargs);
                }
                r
            },
        }
    }

    /// Evaluates the expression against the numeric values of already
    /// computed cells; see [`eval_spec`] for what is returned.
    pub fn eval(&self, ctx: &AssocMap<u64>) -> (r: Result<u64, Error>)
        requires
            ctx.wf(),
        ensures
            with_err_view(r) == eval_spec(self@, ctx@),
        decreases size_of(self@),
    {
        match self {
            Expr::Num(n) => Ok(*n),
            Expr::Str(_) => Err(Error::StringEval),
            Expr::CellRef(id) => match ctx.get(id) {
                Some(v) => Ok(*v),
                None => Err(Error::UnresolvedRef { id: *id }),
            },
            Expr::Apply { op, args } => {
                let ghost vargs = expr_view_seq(args@, args@.len() as int);
                proof {
                    lemma_expr_view_seq(args@, args@.len() as int);
                }
                if *op == Op::Neg {
                    if args.len() < 1 {
                        return Err(Error::BadArity { op: *op });
                    }
                    proof {
                        lemma_size_seq_elem(vargs, vargs.len() as int, 0);
                    }
                    match args[0].eval(ctx) {
                        Ok(v) => Ok(num_neg(v)),
                        Err(e) => Err(e),
                    }
                } else {
                    let n = args.len();
                    let mut vals: Vec<u64> = Vec::new();
                    let mut k: usize = 0;
                    while k < n
                        invariant
                            k <= n,
                            n == args@.len(),
                            ctx.wf(),
                            vargs == expr_view_seq(args@, args@.len() as int),
                            vargs.len() == args@.len(),
                            forall|i: int| 0 <= i < vargs.len() ==> vargs[i] == expr_view(args@[i]),
                            self@ == (SpecExpr::Apply { op: *op, args: vargs }),
                            *op != Op::Neg,
                            size_of(self@) == 1 + size_seq(vargs, vargs.len() as int),
                            eval_args_spec(vargs, ctx@, k as int) == Ok::<Seq<u64>, SpecErr>(vals@),
                        decreases n - k,
                    {
                        proof {
                            lemma_size_seq_elem(vargs, vargs.len() as int, k as int);
                        }
                        match args[k].eval(ctx) {
                            Err(e) => {
                                proof {
                                    assert(eval_args_spec(vargs, ctx@, k + 1) == Err::<
                                        Seq<u64>,
                                        SpecErr,
                                    >(e@));
                                    lemma_eval_args_err_extends(
                                        vargs,
                                        ctx@,
                                        k + 1,
                                        vargs.len() as int,
                                    );
                                }
                                return Err(e);
                            },
                            Ok(v) => {
                                vals.push(v);
                            },
                        }
                        k += 1;
                    }
                    proof {
                        lemma_eval_args_len(vargs, ctx@, vargs.len() as int);
                    }
                    if vals.len() == 2 {
                        Ok(apply_bin(*op, vals[0], vals[1]))
                    } else {
                        Err(Error::BadArity { op: *op })
                    }
                }
            },
        }
    }
}

} // verus!

verus! {

/// What one cell of the evaluation order contributes: a text stays
/// itself, a number is recorded, a reference copies the referenced cell's
/// results and fails if that cell was never computed, and an application
/// is evaluated against the numeric values gathered so far.
pub open spec fn fold_step(
    m: Map<CellId, SpecExpr>,
    id: CellId,
    vals: Map<CellId, u64>,
    comp: Map<CellId, SpecExpr>,
) -> Result<(Map<CellId, u64>, Map<CellId, SpecExpr>), SpecErr> {
    if !m.contains_key(id) {
        Ok((vals, comp))
    } else {
        match m[id] {
            SpecExpr::Str(s) => Ok((vals, comp.insert(id, SpecExpr::Str(s)))),
            SpecExpr::Num(nb) => Ok((vals.insert(id, nb), comp.insert(id, SpecExpr::Num(nb)))),
            SpecExpr::CellRef(other) => {
                let vals2 = if vals.contains_key(other) {
                    vals.insert(id, vals[other])
                } else {
                    vals
                };
                if comp.contains_key(other) {
                    Ok((vals2, comp.insert(id, comp[other])))
                } else {
                    Err(SpecErr::EmptyCellRef { referenced: other, at: id })
                }
            },
            SpecExpr::Apply { .. } => match eval_spec(m[id], vals) {
                Ok(v) => Ok((vals.insert(id, v), comp.insert(id, SpecExpr::Num(v)))),
                Err(e) => Err(e),
            },
        }
    }
}

/// The numeric values and computed expressions after walking the first
/// `t` addresses of an evaluation order, or the first failure.
pub open spec fn fold_spec(m: Map<CellId, SpecExpr>, order: Seq<CellId>, t: int) -> Result<
    (Map<CellId, u64>, Map<CellId, SpecExpr>),
    SpecErr,
>
    decreases t,
{
    if t <= 0 {
        Ok((Map::empty(), Map::empty()))
    } else {
        match fold_spec(m, order, t - 1) {
            Err(e) => Err(e),
            Ok(p) => fold_step(m, order[t - 1], p.0, p.1),
        }
    }
}

/// The computed expressions after walking a whole evaluation order.
pub open spec fn fold_comp(m: Map<CellId, SpecExpr>, order: Seq<CellId>) -> Result<
    Map<CellId, SpecExpr>,
    SpecErr,
> {
    match fold_spec(m, order, order.len() as int) {
        Ok(p) => Ok(p.1),
        Err(e) => Err(e),
    }
}

/// What evaluating a whole table may yield.  Success is a walk over some
/// full evaluation order — which of several valid orders is left open, as
/// only the order among unrelated cells differs.  Failure is a blocked
/// table (a cycle or a reference that can never resolve), or the first
/// failure met along such a walk.
pub open spec fn eval_rel(
    m: Map<CellId, SpecExpr>,
    r: Result<Map<CellId, SpecExpr>, SpecErr>,
) -> bool {
    match r {
        Ok(comp) => exists|order: Seq<CellId>|
            #[trigger] complete_order(m, order) && fold_comp(m, order) == Ok::<_, SpecErr>(comp),
        Err(e) => (e matches SpecErr::Cycle { ids } && blocked(m, ids)) || (exists|
            order: Seq<CellId>,
        |
            #[trigger] complete_order(m, order) && fold_comp(m, order) == Err::<
                Map<CellId, SpecExpr>,
                _,
            >(e)),
    }
}

/// A failed walk prefix fails every longer prefix the same way.
proof fn lemma_fold_err_extends(m: Map<CellId, SpecExpr>, order: Seq<CellId>, k: int, j: int)
    requires
        0 <= k <= j,
        fold_spec(m, order, k) is Err,
    ensures
        fold_spec(m, order, j) == fold_spec(m, order, k),
    decreases j - k,
{
    if j > k {
        lemma_fold_err_extends(m, order, k, j - 1);
    }
}

/// Replacing one cell's expression shifts the whole table's model by just
/// that cell.
pub proof fn lemma_table_view_insert(mm: Map<CellId, Expr>, k: CellId, e: Expr)
    ensures
        table_view(mm.insert(k, e)) == table_view(mm).insert(k, expr_view(e)),
{
    assert(table_view(mm.insert(k, e)) =~= table_view(mm).insert(k, expr_view(e)));
}

/// Evaluates a parsed table: every cell's expression becomes its computed
/// form — texts stay themselves, everything else collapses to the number
/// it denotes — or the first failure is reported; see [`eval_rel`].
pub fn eval(exprs: &Cells) -> (r: Result<Cells, Error>)
    requires
        exprs.wf(),
    ensures
        (r matches Ok(c) ==> c.wf() && eval_rel(table_view(exprs@), Ok(table_view(c@)))
            && all_plain(table_view(c@)) && (forall|k: CellId|
            #[trigger] table_view(c@).contains_key(k) <==> table_view(exprs@).contains_key(k))),
        (r matches Err(e) ==> eval_rel(table_view(exprs@), Err(e@))),
{
    let ghost m = table_view(exprs@);
    let order = match crate::topological::topological_sort(exprs) {
        Ok(o) => o,
        Err(e) => {
            proof {
                assert(eval_rel(m, Err(e@)));
            }
            return Err(e);
        },
    };
    let mut values: Values = AssocMap::new();
    let mut computed: Cells = AssocMap::new();
    proof {
        assert(table_view(computed@) =~= Map::<CellId, SpecExpr>::empty());
    }
    let n = order.len();
    let mut t: usize = 0;
    while t < n
        invariant
            t <= n,
            n == order@.len(),
            exprs.wf(),
            values.wf(),
            computed.wf(),
            m == table_view(exprs@),
            complete_order(m, order@),
            fold_spec(m, order@, t as int) == Ok::<_, SpecErr>((values@, table_view(computed@))),
        decreases n - t,
    {
        let id = order[t];
        let ghost vals0 = values@;
        let ghost compm0 = computed@;
        let ghost comp0 = table_view(computed@);
        proof {
            assert(order@.contains(id)) by {
                assert(order@[t as int] == id);
            }
            assert(m.contains_key(id));
            assert(m[id] == expr_view(exprs@[id]));
        }
        match exprs.get(&id) {
            None => {
                proof {
                    assert(false);
                }
            },
            Some(expr) => {
                match expr {
                    Expr::Str(sv) => {
                        let c = sv.clone();
                        let ghost ce = Expr::Str(c);
                        computed.insert(id, Expr::Str(c));
                        proof {
                            lemma_table_view_insert(compm0, id, ce);
                            assert(expr_view(ce) == SpecExpr::Str(sv@));
                            assert(fold_step(m, id, vals0, comp0) == Ok::<_, SpecErr>(
                                (values@, table_view(computed@)),
                            ));
                        }
                    },
                    Expr::Num(nb) => {
                        values.insert(id, *nb);
                        computed.insert(id, Expr::Num(*nb));
                        proof {
                            lemma_table_view_insert(compm0, id, Expr::Num(*nb));
                            assert(fold_step(m, id, vals0, comp0) == Ok::<_, SpecErr>(
                                (values@, table_view(computed@)),
                            ));
                        }
                    },
                    Expr::CellRef(other) => {
                        let got = values.get(other);
                        match got {
                            Some(v) => {
                                let vv = *v;
                                values.insert(id, vv);
                            },
                            None => {},
                        }
                        let gotc = computed.get(other);
                        match gotc {
                            Some(ce) => {
                                let cc = ce.clone_expr();
                                let ghost ccv = expr_view(cc);
                                computed.insert(id, cc);
                                proof {
                                    lemma_table_view_insert(compm0, id, compm0[*other]);
                                    assert(ccv == expr_view(compm0[*other]));
                                    assert(comp0.contains_key(*other) && comp0[*other] == ccv);
                                    assert(table_view(computed@) =~= comp0.insert(id, ccv));
                                    assert(fold_step(m, id, vals0, comp0) == Ok::<_, SpecErr>(
                                        (values@, table_view(computed@)),
                                    ));
                                }
                            },
                            None => {
                                proof {
                                    assert(fold_spec(m, order@, t + 1) == Err::<
                                        (Map<CellId, u64>, Map<CellId, SpecExpr>),
                                        _,
                                    >(SpecErr::EmptyCellRef { referenced: *other, at: id }));
                                    lemma_fold_err_extends(m, order@, t + 1, order@.len() as int);
                                    assert(eval_rel(
                                        m,
                                        Err(SpecErr::EmptyCellRef { referenced: *other, at: id }),
                                    ));
                                }
                                return Err(Error::EmptyCellRef { referenced: *other, at: id });
                            },
                        }
                    },
                    Expr::Apply { .. } => {
                        let res = expr.eval(&values);
                        match res {
                            Ok(v) => {
                                values.insert(id, v);
                                computed.insert(id, Expr::Num(v));
                                proof {
                                    lemma_table_view_insert(compm0, id, Expr::Num(v));
                                    assert(fold_step(m, id, vals0, comp0) == Ok::<_, SpecErr>(
                                        (values@, table_view(computed@)),
                                    ));
                                }
                            },
                            Err(e) => {
                                proof {
                                    assert(fold_spec(m, order@, t + 1) == Err::<
                                        (Map<CellId, u64>, Map<CellId, SpecExpr>),
                                        _,
                                    >(e@));
                                    lemma_fold_err_extends(m, order@, t + 1, order@.len() as int);
                                    assert(eval_rel(m, Err(e@)));
                                }
                                return Err(e);
                            },
                        }
                    },
                }
            },
        }
        t += 1;
        proof {
            assert(fold_spec(m, order@, t as int) == Ok::<_, SpecErr>(
                (values@, table_view(computed@)),
            )) by {
                assert(fold_spec(m, order@, t - 1) == Ok::<_, SpecErr>((vals0, comp0)));
                assert(order@[t - 1] == id);
                assert(fold_step(m, id, vals0, comp0) == Ok::<_, SpecErr>(
                    (values@, table_view(computed@)),
                ));
            }
        }
    }
    proof {
        assert(fold_comp(m, order@) == Ok::<_, SpecErr>(table_view(computed@)));
        assert(eval_rel(m, Ok(table_view(computed@))));
        lemma_fold_plain(m, order@, order@.len() as int, values@, table_view(computed@));
        assert forall|k: CellId|
            #[trigger] table_view(computed@).contains_key(k) <==> m.contains_key(k) by {
            if table_view(computed@).contains_key(k) {
                assert(in_prefix(order@, order@.len() as int, k));
            }
            if m.contains_key(k) {
                assert(order@.contains(k));
                let u = choose|u: int| 0 <= u < order@.len() && order@[u] == k;
                assert(in_prefix(order@, order@.len() as int, k));
            }
        }
    }
    Ok(computed)
}

} // verus!

verus! {

/// Every cell of the map holds a plain result: a number or a text.
pub open spec fn all_plain(c: Map<CellId, SpecExpr>) -> bool {
    forall|k: CellId| c.contains_key(k) ==> ((#[trigger] c[k]) is Num || c[k] is Str)
}

/// Whether an address occurs among the first `t` of an order.
pub open spec fn in_prefix(order: Seq<CellId>, t: int, k: CellId) -> bool {
    exists|i: int| 0 <= i < t && order[i] == k
}

/// An address is in a one-longer prefix when it was there already or is
/// the newly covered one.
proof fn lemma_in_prefix_step(order: Seq<CellId>, t: int, k: CellId)
    requires
        1 <= t <= order.len(),
    ensures
        in_prefix(order, t, k) <==> in_prefix(order, t - 1, k) || order[t - 1] == k,
{
    if in_prefix(order, t, k) {
        let i = choose|i: int| 0 <= i < t && order[i] == k;
        if i < t - 1 {
            assert(in_prefix(order, t - 1, k));
        }
    }
    if in_prefix(order, t - 1, k) {
        let i = choose|i: int| 0 <= i < t - 1 && order[i] == k;
        assert(0 <= i < t && order[i] == k);
        assert(in_prefix(order, t, k));
    }
    if order[t - 1] == k {
        assert(0 <= t - 1 < t && order[t - 1] == k);
        assert(in_prefix(order, t, k));
    }
}

/// A successful walk computes only plain results, exactly for the table
/// cells its prefix covers.
proof fn lemma_fold_plain(
    m: Map<CellId, SpecExpr>,
    order: Seq<CellId>,
    t: int,
    vals: Map<CellId, u64>,
    comp: Map<CellId, SpecExpr>,
)
    requires
        0 <= t <= order.len(),
        fold_spec(m, order, t) == Ok::<_, SpecErr>((vals, comp)),
    ensures
        all_plain(comp),
        forall|k: CellId|
            comp.contains_key(k) <==> (#[trigger] in_prefix(order, t, k)) && m.contains_key(k),
    decreases t,
{
    if t == 0 {
        assert forall|k: CellId|
            comp.contains_key(k) <==> (#[trigger] in_prefix(order, t, k)) && m.contains_key(k) by {
            if in_prefix(order, 0, k) {
                let i = choose|i: int| 0 <= i < 0 && order[i] == k;
            }
        }
    } else {
        let prior = fold_spec(m, order, t - 1);
        let vals0 = prior->Ok_0.0;
        let comp0 = prior->Ok_0.1;
        lemma_fold_plain(m, order, t - 1, vals0, comp0);
        let id = order[t - 1];
        assert forall|k: CellId|
            comp.contains_key(k) <==> (#[trigger] in_prefix(order, t, k)) && m.contains_key(k) by {
            lemma_in_prefix_step(order, t, k);
        }
        assert forall|k: CellId| comp.contains_key(k) implies ((#[trigger] comp[k]) is Num
            || comp[k] is Str) by {
            if k != id {
                assert(comp0.contains_key(k) && comp[k] == comp0[k]);
            }
        }
    }
}

/// Walking a table of plain results gives back exactly the covered cells,
/// unchanged.
proof fn lemma_fold_plain_table(c: Map<CellId, SpecExpr>, order: Seq<CellId>, t: int)
    requires
        all_plain(c),
        0 <= t <= order.len(),
        forall|i: int| 0 <= i < t ==> c.contains_key(#[trigger] order[i]),
    ensures
        fold_spec(c, order, t) is Ok,
        forall|k: CellId|
            (fold_spec(c, order, t)->Ok_0.1).contains_key(k) <==> #[trigger] in_prefix(
                order,
                t,
                k,
            ),
        forall|k: CellId|
            #[trigger] in_prefix(order, t, k) ==> (fold_spec(c, order, t)->Ok_0.1)[k] == c[k],
    decreases t,
{
    if t == 0 {
        assert forall|k: CellId|
            (fold_spec(c, order, t)->Ok_0.1).contains_key(k) <==> #[trigger] in_prefix(
                order,
                t,
                k,
            ) by {
            if in_prefix(order, 0, k) {
                let i = choose|i: int| 0 <= i < 0 && order[i] == k;
            }
        }
    } else {
        lemma_fold_plain_table(c, order, t - 1);
        let id = order[t - 1];
        assert(c.contains_key(id));
        assert(c[id] is Num || c[id] is Str);
        assert forall|k: CellId|
            (fold_spec(c, order, t)->Ok_0.1).contains_key(k) <==> #[trigger] in_prefix(
                order,
                t,
                k,
            ) by {
            lemma_in_prefix_step(order, t, k);
        }
        assert forall|k: CellId| #[trigger] in_prefix(order, t, k) implies (fold_spec(
            c,
            order,
            t,
        )->Ok_0.1)[k] == c[k] by {
            lemma_in_prefix_step(order, t, k);
        }
    }
}

/// Re-running table evaluation on an already computed table hands the same
/// table back, value for value: evaluation is idempotent.  Together with
/// [`lemma_eval_deterministic`], the re-run can return nothing but that
/// very table.
pub proof fn lemma_eval_idempotent(m: Map<CellId, SpecExpr>, c: Map<CellId, SpecExpr>)
    requires
        eval_rel(m, Ok(c)),
    ensures
        eval_rel(c, Ok(c)),
{
    let order = choose|order: Seq<CellId>|
        #[trigger] complete_order(m, order) && fold_comp(m, order) == Ok::<_, SpecErr>(c);
    let full = fold_spec(m, order, order.len() as int);
    lemma_fold_plain(m, order, order.len() as int, full->Ok_0.0, full->Ok_0.1);
    assert(all_plain(c));
    assert forall|x: CellId| order.contains(x) <==> c.contains_key(x) by {
        if order.contains(x) {
            let i = choose|i: int| 0 <= i < order.len() && order[i] == x;
            assert(in_prefix(order, order.len() as int, x));
            assert(m.contains_key(x));
        }
        if c.contains_key(x) {
            assert(in_prefix(order, order.len() as int, x));
            let i = choose|i: int| 0 <= i < order.len() && order[i] == x;
            assert(order[i] == x);
        }
    }
    assert(complete_order(c, order)) by {
        assert forall|t: int, d: CellId|
            0 <= t < order.len() && #[trigger] is_dep(c[order[t]], d) implies exists|u: int|
            0 <= u < t && order[u] == d by {
            assert(order.contains(order[t]));
            assert(c.contains_key(order[t]));
            assert(c[order[t]] is Num || c[order[t]] is Str);
            assert(!is_dep(c[order[t]], d));
        }
    }
    assert(forall|i: int| 0 <= i < order.len() ==> c.contains_key(#[trigger] order[i])) by {
        assert forall|i: int| 0 <= i < order.len() implies c.contains_key(#[trigger] order[i]) by {
            assert(order.contains(order[i]));
        }
    }
    lemma_fold_plain_table(c, order, order.len() as int);
    let full2 = fold_spec(c, order, order.len() as int);
    assert(full2->Ok_0.1 =~= c) by {
        assert forall|k: CellId| full2->Ok_0.1.contains_key(k) <==> c.contains_key(k) by {
            if c.contains_key(k) {
                assert(order.contains(k));
                let i = choose|i: int| 0 <= i < order.len() && order[i] == k;
                assert(in_prefix(order, order.len() as int, k));
            }
            if full2->Ok_0.1.contains_key(k) {
                assert(in_prefix(order, order.len() as int, k));
                let i = choose|i: int| 0 <= i < order.len() && order[i] == k;
                assert(order.contains(k)) by {
                    assert(order[i] == k);
                }
            }
        }
        assert forall|k: CellId| full2->Ok_0.1.contains_key(k) implies full2->Ok_0.1[k] == c[k] by {
            assert(in_prefix(order, order.len() as int, k));
        }
    }
    assert(fold_comp(c, order) == Ok::<_, SpecErr>(c));
    assert(complete_order(c, order) && fold_comp(c, order) == Ok::<_, SpecErr>(c));
    assert(eval_rel(c, Ok(c)));
}

} // verus!

verus! {

/// An expression of a prefix reads only addresses the prefix reads.
proof fn lemma_is_dep_prefix_elem(s: Seq<SpecExpr>, k: int, i: int, d: CellId)
    requires
        0 <= i < k <= s.len(),
        is_dep(s[i], d),
    ensures
        is_dep_prefix(s, k, d),
    decreases k,
{
    if i < k - 1 {
        lemma_is_dep_prefix_elem(s, k - 1, i, d);
    }
}

/// Two value contexts agree on everything an expression reads: the same
/// addresses carry values, and with the same bits.
pub open spec fn ctx_agree(e: SpecExpr, ctx1: Map<CellId, u64>, ctx2: Map<CellId, u64>) -> bool {
    forall|d: CellId|
        #[trigger] is_dep(e, d) ==> ((ctx1.contains_key(d) <==> ctx2.contains_key(d)) && (
        ctx1.contains_key(d) ==> ctx1[d] == ctx2[d]))
}

/// Evaluation reads nothing but an expression's own dependencies: two
/// contexts that agree on them give the same result.
pub proof fn lemma_eval_frame(e: SpecExpr, ctx1: Map<CellId, u64>, ctx2: Map<CellId, u64>)
    requires
        ctx_agree(e, ctx1, ctx2),
    ensures
        eval_spec(e, ctx1) == eval_spec(e, ctx2),
    decreases e,
{
    match e {
        SpecExpr::Str(_) => {},
        SpecExpr::Num(_) => {},
        SpecExpr::CellRef(id) => {
            assert(is_dep(e, id));
        },
        SpecExpr::Apply { op, args } => {
            assert forall|i: int| 0 <= i < args.len() implies ctx_agree(
                #[trigger] args[i],
                ctx1,
                ctx2,
            ) by {
                assert forall|d: CellId| #[trigger] is_dep(args[i], d) implies ((
                ctx1.contains_key(d) <==> ctx2.contains_key(d)) && (ctx1.contains_key(d)
                    ==> ctx1[d] == ctx2[d])) by {
                    lemma_is_dep_prefix_elem(args, args.len() as int, i, d);
                    assert(is_dep(e, d));
                }
            }
            if op == Op::Neg {
                if args.len() >= 1 {
                    lemma_eval_frame(args[0], ctx1, ctx2);
                }
            } else {
                lemma_eval_args_frame(args, ctx1, ctx2, args.len() as int);
            }
        },
    }
}

/// The argument fold reads nothing but the arguments' own dependencies.
proof fn lemma_eval_args_frame(
    s: Seq<SpecExpr>,
    ctx1: Map<CellId, u64>,
    ctx2: Map<CellId, u64>,
    k: int,
)
    requires
        0 <= k <= s.len(),
        forall|i: int| 0 <= i < s.len() ==> ctx_agree(#[trigger] s[i], ctx1, ctx2),
    ensures
        eval_args_spec(s, ctx1, k) == eval_args_spec(s, ctx2, k),
    decreases s, k,
{
    if 0 < k <= s.len() {
        lemma_eval_args_frame(s, ctx1, ctx2, k - 1);
        lemma_eval_frame(s[k - 1], ctx1, ctx2);
    }
}

} // verus!

verus! {

/// A walk records numeric values only for table cells its prefix covers.
proof fn lemma_fold_vals_dom(
    m: Map<CellId, SpecExpr>,
    order: Seq<CellId>,
    t: int,
    vals: Map<CellId, u64>,
    comp: Map<CellId, SpecExpr>,
)
    requires
        0 <= t <= order.len(),
        fold_spec(m, order, t) == Ok::<_, SpecErr>((vals, comp)),
    ensures
        forall|k: CellId|
            #[trigger] vals.contains_key(k) ==> in_prefix(order, t, k) && m.contains_key(k),
    decreases t,
{
    if t > 0 {
        let prior = fold_spec(m, order, t - 1);
        lemma_fold_vals_dom(m, order, t - 1, prior->Ok_0.0, prior->Ok_0.1);
        assert forall|k: CellId| #[trigger] vals.contains_key(k) implies in_prefix(order, t, k)
            && m.contains_key(k) by {
            lemma_in_prefix_step(order, t, k);
            if k != order[t - 1] {
                assert(prior->Ok_0.0.contains_key(k));
            }
        }
    } else {
        assert forall|k: CellId| #[trigger] vals.contains_key(k) implies in_prefix(order, t, k)
            && m.contains_key(k) by {}
    }
}

/// Once a covered cell's results are recorded, later steps of the same
/// walk leave them unchanged.
proof fn lemma_fold_mono(m: Map<CellId, SpecExpr>, order: Seq<CellId>, t1: int, t2: int)
    requires
        order.no_duplicates(),
        0 <= t1 <= t2 <= order.len(),
        fold_spec(m, order, t2) is Ok,
    ensures
        fold_spec(m, order, t1) is Ok,
        forall|k: CellId|
            #[trigger] in_prefix(order, t1, k) ==> ({
                let p1 = fold_spec(m, order, t1)->Ok_0;
                let p2 = fold_spec(m, order, t2)->Ok_0;
                &&& (p1.0.contains_key(k) <==> p2.0.contains_key(k))
                &&& (p1.0.contains_key(k) ==> p1.0[k] == p2.0[k])
                &&& (p1.1.contains_key(k) <==> p2.1.contains_key(k))
                &&& (p1.1.contains_key(k) ==> p1.1[k] == p2.1[k])
            }),
    decreases t2 - t1,
{
    if t2 > t1 {
        lemma_fold_mono(m, order, t1, t2 - 1);
        let id = order[t2 - 1];
        assert forall|k: CellId| #[trigger] in_prefix(order, t1, k) implies ({
            let p1 = fold_spec(m, order, t1)->Ok_0;
            let p2 = fold_spec(m, order, t2)->Ok_0;
            &&& (p1.0.contains_key(k) <==> p2.0.contains_key(k))
            &&& (p1.0.contains_key(k) ==> p1.0[k] == p2.0[k])
            &&& (p1.1.contains_key(k) <==> p2.1.contains_key(k))
            &&& (p1.1.contains_key(k) ==> p1.1[k] == p2.1[k])
        }) by {
            let v = choose|v: int| 0 <= v < t1 && order[v] == k;
            assert(k != id) by {
                if k == id {
                    assert(order[v] == order[t2 - 1]);
                }
            }
        }
    }
}

} // verus!

verus! {

/// Walking a table along one full evaluation order succeeds and agrees,
/// cell for cell, with any successful full walk along another: the
/// recorded values depend on the table alone, never on the order chosen.
proof fn lemma_fold_transfer(
    m: Map<CellId, SpecExpr>,
    o1: Seq<CellId>,
    o2: Seq<CellId>,
    t: int,
)
    requires
        complete_order(m, o1),
        complete_order(m, o2),
        fold_spec(m, o1, o1.len() as int) is Ok,
        0 <= t <= o2.len(),
    ensures
        fold_spec(m, o2, t) is Ok,
        forall|k: CellId|
            #[trigger] in_prefix(o2, t, k) ==> ({
                let p2 = fold_spec(m, o2, t)->Ok_0;
                let p1 = fold_spec(m, o1, o1.len() as int)->Ok_0;
                &&& (p2.0.contains_key(k) <==> p1.0.contains_key(k))
                &&& (p2.0.contains_key(k) ==> p2.0[k] == p1.0[k])
                &&& p2.1.contains_key(k)
                &&& p1.1.contains_key(k)
                &&& p2.1[k] == p1.1[k]
            }),
    decreases t,
{
    let len1 = o1.len() as int;
    let p1 = fold_spec(m, o1, len1)->Ok_0;
    lemma_fold_plain(m, o1, len1, p1.0, p1.1);
    if t == 0 {
        assert forall|k: CellId| #[trigger] in_prefix(o2, t, k) implies false by {
            let v = choose|v: int| 0 <= v < 0 && o2[v] == k;
        }
    } else {
        lemma_fold_transfer(m, o1, o2, t - 1);
        let p2prev = fold_spec(m, o2, t - 1)->Ok_0;
        lemma_fold_plain(m, o2, t - 1, p2prev.0, p2prev.1);
        lemma_fold_vals_dom(m, o2, t - 1, p2prev.0, p2prev.1);
        let id = o2[t - 1];
        assert(o2.contains(id)) by {
            assert(o2[t - 1] == id);
        }
        assert(m.contains_key(id));
        assert(o1.contains(id));
        let s1 = choose|s1: int| 0 <= s1 < o1.len() && o1[s1] == id;
        lemma_fold_mono(m, o1, s1 + 1, len1);
        lemma_fold_mono(m, o1, s1, len1);
        let q1 = fold_spec(m, o1, s1)->Ok_0;
        let q1n = fold_spec(m, o1, s1 + 1)->Ok_0;
        assert(fold_spec(m, o1, s1 + 1) == fold_step(m, id, q1.0, q1.1));
        assert(in_prefix(o1, s1 + 1, id)) by {
            assert(0 <= s1 < s1 + 1 && o1[s1] == id);
        }
        assert(!in_prefix(o1, s1, id)) by {
            if in_prefix(o1, s1, id) {
                let v = choose|v: int| 0 <= v < s1 && o1[v] == id;
                assert(o1[v] == o1[s1]);
            }
        }
        assert(!in_prefix(o2, t - 1, id)) by {
            if in_prefix(o2, t - 1, id) {
                let v = choose|v: int| 0 <= v < t - 1 && o2[v] == id;
                assert(o2[v] == o2[t - 1]);
            }
        }
        lemma_fold_vals_dom(m, o1, s1, q1.0, q1.1);
        lemma_fold_plain(m, o1, s1, q1.0, q1.1);
        // the two walks agree on everything the cell reads
        assert forall|d: CellId| #[trigger] is_dep(m[id], d) implies in_prefix(o2, t - 1, d)
            && in_prefix(o1, s1, d) && (p2prev.0.contains_key(d) <==> q1.0.contains_key(d)) && (
        p2prev.0.contains_key(d) ==> p2prev.0[d] == q1.0[d]) && (p2prev.1.contains_key(d)
            <==> q1.1.contains_key(d)) && (p2prev.1.contains_key(d) ==> p2prev.1[d]
            == q1.1[d]) by {
            let u2 = choose|u: int| 0 <= u < t - 1 && o2[u] == d;
            assert(in_prefix(o2, t - 1, d));
            let u1 = choose|u: int| 0 <= u < s1 && o1[u] == d;
            assert(in_prefix(o1, s1, d));
            assert(in_prefix(o1, len1, d)) by {
                assert(0 <= u1 < len1 && o1[u1] == d);
            }
        }
        let step2 = fold_step(m, id, p2prev.0, p2prev.1);
        assert(step2 is Ok && fold_step(m, id, q1.0, q1.1) is Ok && ({
            let r2 = step2->Ok_0;
            let r1 = q1n;
            &&& (r2.0.contains_key(id) <==> r1.0.contains_key(id))
            &&& (r2.0.contains_key(id) ==> r2.0[id] == r1.0[id])
            &&& r2.1.contains_key(id)
            &&& r1.1.contains_key(id)
            &&& r2.1[id] == r1.1[id]
        })) by {
            match m[id] {
                SpecExpr::Str(_) => {},
                SpecExpr::Num(_) => {},
                SpecExpr::CellRef(other) => {
                    assert(is_dep(m[id], other));
                    assert(q1.1.contains_key(other));
                },
                SpecExpr::Apply { .. } => {
                    assert(ctx_agree(m[id], p2prev.0, q1.0));
                    lemma_eval_frame(m[id], p2prev.0, q1.0);
                },
            }
        }
        assert(fold_spec(m, o2, t) == step2);
        let p2 = fold_spec(m, o2, t)->Ok_0;
        assert forall|k: CellId| #[trigger] in_prefix(o2, t, k) implies ({
            &&& (p2.0.contains_key(k) <==> p1.0.contains_key(k))
            &&& (p2.0.contains_key(k) ==> p2.0[k] == p1.0[k])
            &&& p2.1.contains_key(k)
            &&& p1.1.contains_key(k)
            &&& p2.1[k] == p1.1[k]
        }) by {
            lemma_in_prefix_step(o2, t, k);
            if k == id {
                // the just-walked cell: both walks took the same step
                assert(in_prefix(o1, len1, id)) by {
                    assert(0 <= s1 < len1 && o1[s1] == id);
                }
            } else {
                assert(in_prefix(o2, t - 1, k));
            }
        }
    }
}

} // verus!

verus! {

/// Confluence of table evaluation: when one full evaluation order
/// succeeds, every full evaluation order succeeds with exactly the same
/// computed table.
pub proof fn lemma_fold_deterministic(m: Map<CellId, SpecExpr>, o1: Seq<CellId>, o2: Seq<CellId>)
    requires
        complete_order(m, o1),
        complete_order(m, o2),
        fold_comp(m, o1) is Ok,
    ensures
        fold_comp(m, o2) == fold_comp(m, o1),
{
    let len1 = o1.len() as int;
    let len2 = o2.len() as int;
    lemma_fold_transfer(m, o1, o2, len2);
    let p1 = fold_spec(m, o1, len1)->Ok_0;
    let p2 = fold_spec(m, o2, len2)->Ok_0;
    lemma_fold_plain(m, o1, len1, p1.0, p1.1);
    lemma_fold_plain(m, o2, len2, p2.0, p2.1);
    assert forall|k: CellId| p2.1.contains_key(k) <==> p1.1.contains_key(k) by {
        let c2k = in_prefix(o2, len2, k);
        let c1k = in_prefix(o1, len1, k);
        if p2.1.contains_key(k) {
            assert(c2k && m.contains_key(k));
            assert(o1.contains(k));
            let u = choose|u: int| 0 <= u < o1.len() && o1[u] == k;
            assert(in_prefix(o1, len1, k));
        }
        if p1.1.contains_key(k) {
            assert(c1k && m.contains_key(k));
            assert(o2.contains(k));
            let u = choose|u: int| 0 <= u < o2.len() && o2[u] == k;
            assert(in_prefix(o2, len2, k));
        }
    }
    assert forall|k: CellId| p2.1.contains_key(k) implies p2.1[k] == p1.1[k] by {
        assert(in_prefix(o2, len2, k));
    }
    assert(p2.1 =~= p1.1);
}

/// Determinism of table evaluation: once the evaluation relation admits a
/// computed table, it admits that result and nothing else — the outcome
/// is a pure function of the table, not of the order cells were walked.
pub proof fn lemma_eval_deterministic(
    m: Map<CellId, SpecExpr>,
    c: Map<CellId, SpecExpr>,
    r: Result<Map<CellId, SpecExpr>, SpecErr>,
)
    requires
        eval_rel(m, Ok(c)),
        eval_rel(m, r),
    ensures
        r == Ok::<Map<CellId, SpecExpr>, SpecErr>(c),
{
    let o1 = choose|o: Seq<CellId>|
        #[trigger] complete_order(m, o) && fold_comp(m, o) == Ok::<_, SpecErr>(c);
    match r {
        Ok(c2) => {
            let o2 = choose|o: Seq<CellId>|
                #[trigger] complete_order(m, o) && fold_comp(m, o) == Ok::<_, SpecErr>(c2);
            lemma_fold_deterministic(m, o1, o2);
        },
        Err(e) => {
            if exists|o: Seq<CellId>|
                #[trigger] complete_order(m, o) && fold_comp(m, o) == Err::<
                    Map<CellId, SpecExpr>,
                    _,
                >(e) {
                let o2 = choose|o: Seq<CellId>|
                    #[trigger] complete_order(m, o) && fold_comp(m, o) == Err::<
                        Map<CellId, SpecExpr>,
                        _,
                    >(e);
                lemma_fold_deterministic(m, o1, o2);
            } else {
                match e {
                    SpecErr::Cycle { ids } => {
                        crate::topological::lemma_blocked_excludes_order(m, ids, o1);
                    },
                    _ => {
                        assert(false);
                    },
                }
            }
        },
    }
}

} // verus!
