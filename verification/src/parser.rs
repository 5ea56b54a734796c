//! From raw cell text to an expression: lexing, the shunting-yard pass,
//! and the build of the tree from the postfix token run.
use crate::cell_id::{cell_id_parse_spec, CellId};
use crate::error::{Error, SpecErr};
use crate::expr::{expr_view, expr_view_seq, lemma_expr_view_seq, Expr, Op, SpecExpr};
use crate::numeric::{float_bits_of, parse_number};
use crate::text::{chars_of_str, is_white, string_of_chars, white_char};
use vstd::prelude::*;

verus! {

/// A token of the postfix output: an operator, a number (raw double
/// bits), or a cell reference.
#[derive(Clone, Copy, PartialEq, Eq, Structural, Debug)]
pub enum Token {
    Op(Op),
    Num(u64),
    CellRef(CellId),
}

/// A symbol on the operator stack: an operator, or an opening parenthesis
/// waiting for its match.
#[derive(Clone, Copy, PartialEq, Eq, Structural, Debug)]
pub enum StackSym {
    Op(Op),
    Paren,
}

/// What the previously read lexeme was, as far as the unary-minus rule
/// cares: nothing yet, an operator, an opening parenthesis, or an operand.
#[derive(Clone, Copy, PartialEq, Eq, Structural, Debug)]
pub enum Prev {
    Start,
    OpPrev(Op),
    ParenPrev,
    OperandPrev,
}

/// The characters that split the input: the five operator symbols and the
/// two parentheses.
pub open spec fn is_sep(c: char) -> bool {
    c == '+' || c == '-' || c == '*' || c == '/' || c == '^' || c == '(' || c == ')'
}

/// The sequence without its leading whitespace.
pub open spec fn trim_start_spec(s: Seq<char>) -> Seq<char>
    decreases s.len(),
{
    if s.len() > 0 && is_white(s[0]) {
        trim_start_spec(s.drop_first())
    } else {
        s
    }
}

/// The sequence without its trailing whitespace.
pub open spec fn trim_end_spec(s: Seq<char>) -> Seq<char>
    decreases s.len(),
{
    if s.len() > 0 && is_white(s.last()) {
        trim_end_spec(s.drop_last())
    } else {
        s
    }
}

/// The sequence without leading and trailing whitespace.
pub open spec fn trim_spec(s: Seq<char>) -> Seq<char> {
    trim_end_spec(trim_start_spec(s))
}

/// A gathered chunk's contribution to the lexeme list: the chunk trimmed,
/// or nothing when only whitespace was gathered.
pub open spec fn emit(cur: Seq<char>) -> Seq<Seq<char>> {
    if trim_spec(cur).len() > 0 {
        seq![trim_spec(cur)]
    } else {
        Seq::empty()
    }
}

/// The lexemes of the remaining input, with `cur` the chunk gathered so
/// far: each separator is a lexeme of its own, and the text between
/// separators is trimmed and dropped when empty.
pub open spec fn lex_rec(s: Seq<char>, cur: Seq<char>) -> Seq<Seq<char>>
    decreases s.len(),
{
    if s.len() == 0 {
        emit(cur)
    } else if is_sep(s[0]) {
        emit(cur).add(seq![seq![s[0]]].add(lex_rec(s.drop_first(), Seq::empty())))
    } else {
        lex_rec(s.drop_first(), cur.push(s[0]))
    }
}

/// The lexemes of an input: separators, and the trimmed texts between
/// them.
pub open spec fn lex_spec(s: Seq<char>) -> Seq<Seq<char>> {
    lex_rec(s, Seq::empty())
}

/// Whether a `-` in this position denotes negation rather than
/// subtraction: at the start of the input, after `(`, or after an
/// operator other than negation itself.
pub open spec fn is_neg_context(prev: Prev) -> bool {
    match prev {
        Prev::Start => true,
        Prev::OpPrev(op) => op != Op::Neg,
        Prev::ParenPrev => true,
        Prev::OperandPrev => false,
    }
}

/// Pops operators bound at least as strongly as the incoming one to the
/// output (equally strong only when the incoming operator groups left),
/// stopping at an opening parenthesis.
pub open spec fn flush_for(ops: Seq<StackSym>, op: Op, out: Seq<Token>) -> (Seq<StackSym>, Seq<
    Token,
>)
    decreases ops.len(),
{
    if ops.len() == 0 {
        (ops, out)
    } else {
        match ops.last() {
            StackSym::Paren => (ops, out),
            StackSym::Op(top) => {
                if top.precedence_spec() > op.precedence_spec() || (op.is_left_associative_spec()
                    && top.precedence_spec() == op.precedence_spec()) {
                    flush_for(ops.drop_last(), op, out.push(Token::Op(top)))
                } else {
                    (ops, out)
                }
            },
        }
    }
}

/// Pops operators to the output until the matching opening parenthesis,
/// which is discarded; an empty stack means the parentheses do not match.
pub open spec fn close_paren(ops: Seq<StackSym>, out: Seq<Token>) -> Result<
    (Seq<StackSym>, Seq<Token>),
    SpecErr,
>
    decreases ops.len(),
{
    if ops.len() == 0 {
        Err(SpecErr::MismatchedParenthesis)
    } else {
        match ops.last() {
            StackSym::Paren => Ok((ops.drop_last(), out)),
            StackSym::Op(top) => close_paren(ops.drop_last(), out.push(Token::Op(top))),
        }
    }
}

/// Pops everything left on the stack to the output; a leftover opening
/// parenthesis means the parentheses do not match.
pub open spec fn final_flush(ops: Seq<StackSym>, out: Seq<Token>) -> Result<Seq<Token>, SpecErr>
    decreases ops.len(),
{
    if ops.len() == 0 {
        Ok(out)
    } else {
        match ops.last() {
            StackSym::Paren => Err(SpecErr::MismatchedParenthesis),
            StackSym::Op(top) => final_flush(ops.drop_last(), out.push(Token::Op(top))),
        }
    }
}

/// One shunting-yard step: a lexeme that reads as a number or an address
/// goes to the output, an operator symbol is disambiguated and pushed
/// after the precedence flush, parentheses drive the stack, and anything
/// else is an unknown lexeme.
pub open spec fn sy_step(
    lexeme: Seq<char>,
    input: Seq<char>,
    out: Seq<Token>,
    ops: Seq<StackSym>,
    prev: Prev,
) -> Result<(Seq<Token>, Seq<StackSym>, Prev), SpecErr> {
    if float_bits_of(lexeme) is Some {
        Ok((out.push(Token::Num(float_bits_of(lexeme)->0)), ops, Prev::OperandPrev))
    } else if Op::from_symbol_spec(lexeme) is Some {
        let op0 = Op::from_symbol_spec(lexeme)->0;
        let op = if op0 == Op::Sub && is_neg_context(prev) {
            Op::Neg
        } else {
            op0
        };
        let (ops2, out2) = flush_for(ops, op, out);
        Ok((out2, ops2.push(StackSym::Op(op)), Prev::OpPrev(op)))
    } else if lexeme == seq!['('] {
        Ok((out, ops.push(StackSym::Paren), Prev::ParenPrev))
    } else if lexeme == seq![')'] {
        match close_paren(ops, out) {
            Ok(p) => Ok((p.1, p.0, prev)),
            Err(e) => Err(e),
        }
    } else {
        match cell_id_parse_spec(lexeme) {
            Ok(id) => Ok((out.push(Token::CellRef(id)), ops, Prev::OperandPrev)),
            Err(_) => Err(SpecErr::UnknownLexeme { lexeme: lexeme, input: input }),
        }
    }
}

/// The shunting-yard pass from lexeme `i` on, given the output, stack and
/// previous-lexeme state so far.
pub open spec fn sy_run(
    ls: Seq<Seq<char>>,
    input: Seq<char>,
    i: int,
    out: Seq<Token>,
    ops: Seq<StackSym>,
    prev: Prev,
) -> Result<Seq<Token>, SpecErr>
    decreases ls.len() - i,
{
    if i >= ls.len() {
        final_flush(ops, out)
    } else {
        match sy_step(ls[i], input, out, ops, prev) {
            Err(e) => Err(e),
            Ok(st) => sy_run(ls, input, i + 1, st.0, st.1, st.2),
        }
    }
}

/// The postfix token run of a formula body: its lexemes fed through the
/// shunting yard.
pub open spec fn shunting_spec(input: Seq<char>) -> Result<Seq<Token>, SpecErr> {
    sy_run(lex_spec(input), input, 0, Seq::empty(), Seq::empty(), Prev::Start)
}

/// Builds expressions from the postfix tokens from position `i` on:
/// operands are pushed, negation takes one expression, every other
/// operator takes two (the right one popped first); an operator finding
/// too few is a malformed expression.
pub open spec fn ast_run(ts: Seq<Token>, i: int, stack: Seq<SpecExpr>) -> Result<
    Seq<SpecExpr>,
    SpecErr,
>
    decreases ts.len() - i,
{
    if i >= ts.len() {
        Ok(stack)
    } else {
        match ts[i] {
            Token::Num(nb) => ast_run(ts, i + 1, stack.push(SpecExpr::Num(nb))),
            Token::CellRef(id) => ast_run(ts, i + 1, stack.push(SpecExpr::CellRef(id))),
            Token::Op(op) => {
                if op == Op::Neg {
                    if stack.len() < 1 {
                        Err(SpecErr::MalformedExpression)
                    } else {
                        ast_run(
                            ts,
                            i + 1,
                            stack.drop_last().push(
                                SpecExpr::Apply { op, args: seq![stack.last()] },
                            ),
                        )
                    }
                } else {
                    if stack.len() < 2 {
                        Err(SpecErr::MalformedExpression)
                    } else {
                        ast_run(
                            ts,
                            i + 1,
                            stack.drop_last().drop_last().push(
                                SpecExpr::Apply {
                                    op,
                                    args: seq![stack[stack.len() - 2], stack.last()],
                                },
                            ),
                        )
                    }
                }
            },
        }
    }
}

/// The expression a postfix token run builds: whatever ends on top of the
/// stack; an empty stack is a malformed expression.
pub open spec fn to_ast_spec(ts: Seq<Token>) -> Result<SpecExpr, SpecErr> {
    match ast_run(ts, 0, Seq::empty()) {
        Err(e) => Err(e),
        Ok(stack) => if stack.len() == 0 {
            Err(SpecErr::MalformedExpression)
        } else {
            Ok(stack.last())
        },
    }
}

/// The text without every leading `=`.
pub open spec fn skip_eqs(s: Seq<char>) -> Seq<char>
    decreases s.len(),
{
    if s.len() > 0 && s[0] == '=' {
        skip_eqs(s.drop_first())
    } else {
        s
    }
}

/// What a raw cell text denotes.  Trimmed text starting with `=` is a
/// formula: the leading `=` signs are stripped and the rest runs through
/// the shunting yard and the tree build.  Anything else is a number when
/// it reads as one, and otherwise the raw text itself, kept verbatim.
pub open spec fn parse_spec(input: Seq<char>) -> Result<SpecExpr, SpecErr> {
    let t = trim_spec(input);
    if t.len() > 0 && t[0] == '=' {
        let body = skip_eqs(t);
        match shunting_spec(body) {
            Err(e) => Err(e),
            Ok(ts) => to_ast_spec(ts),
        }
    } else {
        match float_bits_of(t) {
            Some(b) => Ok(SpecExpr::Num(b)),
            None => Ok(SpecExpr::Str(input)),
        }
    }
}

/// The view of a parse result.
pub open spec fn parse_result_view(r: Result<Expr, Error>) -> Result<SpecExpr, SpecErr> {
    match r {
        Ok(e) => Ok(e@),
        Err(e) => Err(e@),
    }
}

/// The views of a list of character vectors.
pub open spec fn views_of(s: Seq<Vec<char>>) -> Seq<Seq<char>> {
    Seq::new(s.len(), |i: int| s[i]@)
}

} // verus!

verus! {

/// The characters with leading and trailing whitespace dropped.
fn trim_chars(v: &Vec<char>) -> (r: Vec<char>)
    ensures
        r@ == trim_spec(v@),
{
    let n = v.len();
    proof {
        assert(v@.skip(0) =~= v@);
    }
    let mut a: usize = 0;
    while a < n && white_char(v[a])
        invariant
            a <= n,
            n == v@.len(),
            trim_start_spec(v@) == trim_start_spec(v@.skip(a as int)),
        decreases n - a,
    {
        proof {
            assert(v@.skip(a as int)[0] == v@[a as int]);
            assert(v@.skip(a as int).drop_first() =~= v@.skip(a + 1));
        }
        a += 1;
    }
    let ghost t = v@.skip(a as int);
    proof {
        if a == n {
            assert(v@.skip(a as int).len() == 0);
        } else {
            assert(v@.skip(a as int)[0] == v@[a as int]);
        }
        assert(trim_start_spec(v@) == t);
    }
    let mut b: usize = n - a;
    proof {
        assert(t.take(n - a) =~= t);
    }
    while b > 0 && white_char(v[a + b - 1])
        invariant
            b <= n - a,
            a <= n,
            n == v@.len(),
            t == v@.skip(a as int),
            trim_end_spec(t) == trim_end_spec(t.take(b as int)),
        decreases b,
    {
        proof {
            assert(t.take(b as int).last() == v@[a + b - 1]);
            assert(t.take(b as int).drop_last() =~= t.take(b - 1));
        }
        b -= 1;
    }
    proof {
        if b > 0 {
            assert(t.take(b as int).last() == v@[a + b - 1]);
        }
        assert(trim_end_spec(t.take(b as int)) == t.take(b as int));
        assert(trim_spec(v@) == t.take(b as int));
    }
    let mut r: Vec<char> = Vec::new();
    let mut i: usize = 0;
    while i < b
        invariant
            i <= b,
            b <= n - a,
            a <= n,
            n == v@.len(),
            t == v@.skip(a as int),
            r@ == t.take(b as int).take(i as int),
        decreases b - i,
    {
        r.push(v[a + i]);
        proof {
            assert(t.take(b as int)[i as int] == v@[a + i]);
            assert(t.take(b as int).take(i as int).push(t.take(b as int)[i as int]) =~= t.take(
                b as int,
            ).take(i + 1));
        }
        i += 1;
    }
    proof {
        assert(t.take(b as int).take(b as int) =~= t.take(b as int));
    }
    r
}

/// Splits raw text into lexemes: each of `+ - * / ^ ( )` is one of its
/// own, and every run of other characters between them is trimmed of
/// whitespace and kept when anything remains.
pub fn lex(input: &str) -> (r: Vec<Vec<char>>)
    ensures
        views_of(r@) == lex_spec(input@),
{
    let chars = chars_of_str(input);
    let n = chars.len();
    let mut out: Vec<Vec<char>> = Vec::new();
    let mut cur: Vec<char> = Vec::new();
    proof {
        assert(views_of(out@) =~= Seq::<Seq<char>>::empty());
        assert(input@.skip(0) =~= input@);
        assert(views_of(out@) + lex_rec(input@.skip(0), cur@) =~= lex_rec(input@, Seq::empty()));
    }
    let mut i: usize = 0;
    while i < n
        invariant
            i <= n,
            n == chars@.len(),
            chars@ == input@,
            lex_spec(input@) == views_of(out@) + lex_rec(input@.skip(i as int), cur@),
        decreases n - i,
    {
        let ghost out0 = out@;
        let ghost cur0 = cur@;
        let c = chars[i];
        proof {
            assert(input@.skip(i as int)[0] == input@[i as int]);
            assert(input@.skip(i as int).drop_first() =~= input@.skip(i + 1));
        }
        if c == '+' || c == '-' || c == '*' || c == '/' || c == '^' || c == '(' || c == ')' {
            let tr = trim_chars(&cur);
            let emitted = tr.len() > 0;
            if emitted {
                out.push(tr);
            }
            let mut sep: Vec<char> = Vec::new();
            sep.push(c);
            out.push(sep);
            cur = Vec::new();
            proof {
                assert(lex_rec(input@.skip(i as int), cur0) == emit(cur0).add(
                    seq![seq![input@[i as int]]].add(lex_rec(input@.skip(i + 1), Seq::empty())),
                ));
                if emitted {
                    assert(views_of(out@) =~= views_of(out0).push(trim_spec(cur0)).push(
                        seq![c],
                    ));
                    assert(views_of(out0).push(trim_spec(cur0)).push(seq![c]) =~= views_of(
                        out0,
                    ) + emit(cur0) + seq![seq![c]]);
                } else {
                    assert(views_of(out@) =~= views_of(out0).push(seq![c]));
                    assert(views_of(out0).push(seq![c]) =~= views_of(out0) + emit(cur0) + seq![
                        seq![c],
                    ]);
                }
                assert(views_of(out@) + lex_rec(input@.skip(i + 1), cur@) =~= views_of(out0)
                    + lex_rec(input@.skip(i as int), cur0));
            }
        } else {
            cur.push(c);
            proof {
                assert(lex_rec(input@.skip(i as int), cur0) == lex_rec(
                    input@.skip(i + 1),
                    cur0.push(input@[i as int]),
                ));
            }
        }
        i += 1;
    }
    let tr = trim_chars(&cur);
    proof {
        assert(input@.skip(n as int).len() == 0);
        assert(lex_rec(input@.skip(n as int), cur@) == emit(cur@));
    }
    if tr.len() > 0 {
        let ghost out0 = out@;
        let ghost cur0 = cur@;
        out.push(tr);
        proof {
            assert(views_of(out@) =~= views_of(out0).push(trim_spec(cur0)));
            assert(views_of(out0).push(trim_spec(cur0)) =~= views_of(out0) + emit(cur0));
        }
    } else {
        proof {
            assert(views_of(out@) + emit(cur@) =~= views_of(out@));
        }
    }
    out
}

} // verus!

verus! {

/// Runs the shunting-yard pass over a formula body: lexes it, sends
/// operands to the output, keeps operators on a stack ordered by
/// precedence and associativity, reinterprets `-` as negation after an
/// operator, an opening parenthesis or at the start, and matches
/// parentheses; see [`shunting_spec`].
pub fn shunting_yard(input: &str) -> (r: Result<Vec<Token>, Error>)
    ensures
        (match r {
            Ok(ts) => shunting_spec(input@) == Ok::<Seq<Token>, SpecErr>(ts@),
            Err(e) => shunting_spec(input@) == Err::<Seq<Token>, SpecErr>(e@),
        }),
{
    let ls = lex(input);
    let ghost lsv = lex_spec(input@);
    let mut out: Vec<Token> = Vec::new();
    let mut ops: Vec<StackSym> = Vec::new();
    let mut prev = Prev::Start;
    let n = ls.len();
    let mut i: usize = 0;
    while i < n
        invariant
            i <= n,
            n == ls@.len(),
            lsv == lex_spec(input@),
            views_of(ls@) == lsv,
            shunting_spec(input@) == sy_run(lsv, input@, i as int, out@, ops@, prev),
        decreases n - i,
    {
        let ghost out0 = out@;
        let ghost ops0 = ops@;
        let ghost prev0 = prev;
        let lexeme = &ls[i];
        let ghost lx = lsv[i as int];
        proof {
            assert(lx == ls@[i as int]@);
        }
        let num = parse_number(lexeme);
        match num {
            Some(bits) => {
                out.push(Token::Num(bits));
                prev = Prev::OperandPrev;
                proof {
                    assert(sy_step(lx, input@, out0, ops0, prev0) == Ok::<_, SpecErr>(
                        (out@, ops@, prev),
                    ));
                }
            },
            None => {
                let single = lexeme.len() == 1;
                proof {
                    if single {
                        assert(lx =~= seq![lx[0]]);
                    } else {
                        assert(Op::from_symbol_spec(lx) is None && lx != seq!['('] && lx != seq![
                            ')',
                        ]) by {
                            if lx == seq!['+'] || lx == seq!['-'] || lx == seq!['*'] || lx == seq![
                                '/',
                            ] || lx == seq!['^'] || lx == seq!['('] || lx == seq![')'] {
                                assert(lx.len() == 1);
                            }
                        }
                    }
                }
                let opo = if single {
                    match lexeme[0] {
                        '+' => Some(Op::Add),
                        '-' => Some(Op::Sub),
                        '*' => Some(Op::Mul),
                        '/' => Some(Op::Div),
                        '^' => Some(Op::Pow),
                        _ => None,
                    }
                } else {
                    None
                };
                proof {
                    assert(opo == Op::from_symbol_spec(lx));
                }
                match opo {
                    Some(op0) => {
                        let neg_ctx = match prev {
                            Prev::Start => true,
                            Prev::OpPrev(p) => p != Op::Neg,
                            Prev::ParenPrev => true,
                            Prev::OperandPrev => false,
                        };
                        let op = if op0 == Op::Sub && neg_ctx {
                            Op::Neg
                        } else {
                            op0
                        };
                        let ghost fops0 = ops@;
                        let ghost fout0 = out@;
                        loop
                            invariant_except_break
                                flush_for(fops0, op, fout0) == flush_for(ops@, op, out@),
                            ensures
                                flush_for(fops0, op, fout0) == (ops@, out@),
                            decreases ops@.len(),
                        {
                            if ops.len() == 0 {
                                break ;
                            }
                            let top = ops[ops.len() - 1];
                            match top {
                                StackSym::Paren => {
                                    proof {
                                        assert(ops@.last() == StackSym::Paren);
                                    }
                                    break ;
                                },
                                StackSym::Op(t) => {
                                    if t.precedence() > op.precedence() || (op.is_left_associative()
                                        && t.precedence() == op.precedence()) {
                                        let ghost opsb = ops@;
                                        let ghost outb = out@;
                                        ops.pop();
                                        out.push(Token::Op(t));
                                        proof {
                                            assert(opsb.last() == StackSym::Op(t));
                                            assert(ops@ =~= opsb.drop_last());
                                            assert(flush_for(opsb, op, outb) == flush_for(
                                                ops@,
                                                op,
                                                out@,
                                            ));
                                        }
                                    } else {
                                        proof {
                                            assert(ops@.last() == StackSym::Op(t));
                                        }
                                        break ;
                                    }
                                },
                            }
                        }
                        ops.push(StackSym::Op(op));
                        prev = Prev::OpPrev(op);
                        proof {
                            assert(sy_step(lx, input@, out0, ops0, prev0) == Ok::<_, SpecErr>(
                                (out@, ops@, prev),
                            ));
                        }
                    },
                    None => {
                        let first = if single {
                            lexeme[0]
                        } else {
                            ' '
                        };
                        if single && first == '(' {
                            ops.push(StackSym::Paren);
                            prev = Prev::ParenPrev;
                            proof {
                                assert(lx == seq!['(']);
                                assert(sy_step(lx, input@, out0, ops0, prev0) == Ok::<_, SpecErr>(
                                    (out@, ops@, prev),
                                ));
                            }
                        } else if single && first == ')' {
                            proof {
                                assert(lx == seq![')']);
                                assert(lx != seq!['(']) by {
                                    assert(lx[0] == ')');
                                }
                            }
                            let ghost cops0 = ops@;
                            let ghost cout0 = out@;
                            loop
                                invariant_except_break
                                    close_paren(cops0, cout0) == close_paren(ops@, out@),
                                    cops0 == ops0,
                                    cout0 == out0,
                                    0 <= i < lsv.len(),
                                    lx == lsv[i as int],
                                    shunting_spec(input@) == sy_run(
                                        lsv,
                                        input@,
                                        i as int,
                                        out0,
                                        ops0,
                                        prev0,
                                    ),
                                    float_bits_of(lx) is None,
                                    Op::from_symbol_spec(lx) is None,
                                    lx == seq![')'],
                                    lx != seq!['('],
                                ensures
                                    close_paren(cops0, cout0) == Ok::<_, SpecErr>((ops@, out@)),
                                decreases ops@.len(),
                            {
                                if ops.len() == 0 {
                                    proof {
                                        assert(close_paren(cops0, cout0) == Err::<
                                            (Seq<StackSym>, Seq<Token>),
                                            _,
                                        >(SpecErr::MismatchedParenthesis));
                                        assert(sy_step(lx, input@, out0, ops0, prev0) == Err::<
                                            (Seq<Token>, Seq<StackSym>, Prev),
                                            _,
                                        >(SpecErr::MismatchedParenthesis));
                                        assert(shunting_spec(input@) == Err::<Seq<Token>, SpecErr>(
                                            SpecErr::MismatchedParenthesis,
                                        ));
                                    }
                                    return Err(Error::MismatchedParenthesis);
                                }
                                let top = ops[ops.len() - 1];
                                let ghost opsb = ops@;
                                let ghost outb = out@;
                                match top {
                                    StackSym::Paren => {
                                        ops.pop();
                                        proof {
                                            assert(opsb.last() == StackSym::Paren);
                                            assert(ops@ =~= opsb.drop_last());
                                        }
                                        break ;
                                    },
                                    StackSym::Op(t) => {
                                        ops.pop();
                                        out.push(Token::Op(t));
                                        proof {
                                            assert(opsb.last() == StackSym::Op(t));
                                            assert(ops@ =~= opsb.drop_last());
                                            assert(close_paren(opsb, outb) == close_paren(
                                                ops@,
                                                out@,
                                            ));
                                        }
                                    },
                                }
                            }
                            proof {
                                assert(sy_step(lx, input@, out0, ops0, prev0) == Ok::<_, SpecErr>(
                                    (out@, ops@, prev),
                                ));
                            }
                        } else {
                            proof {
                                if single {
                                    assert(lx != seq!['('] && lx != seq![')']) by {
                                        if lx == seq!['('] {
                                            assert(lx[0] == '(');
                                        }
                                        if lx == seq![')'] {
                                            assert(lx[0] == ')');
                                        }
                                    }
                                }
                            }
                            let cid = CellId::parse_chars(lexeme);
                            match cid {
                                Ok(id) => {
                                    out.push(Token::CellRef(id));
                                    prev = Prev::OperandPrev;
                                    proof {
                                        assert(sy_step(lx, input@, out0, ops0, prev0) == Ok::<
                                            _,
                                            SpecErr,
                                        >((out@, ops@, prev)));
                                    }
                                },
                                Err(_) => {
                                    let lex_text = string_of_chars(lexeme);
                                    let input_text = input.to_owned();
                                    proof {
                                        assert(sy_step(lx, input@, out0, ops0, prev0) == Err::<
                                            (Seq<Token>, Seq<StackSym>, Prev),
                                            _,
                                        >(SpecErr::UnknownLexeme { lexeme: lx, input: input@ }));
                                        assert(shunting_spec(input@) == Err::<Seq<Token>, SpecErr>(
                                            SpecErr::UnknownLexeme { lexeme: lx, input: input@ },
                                        ));
                                    }
                                    return Err(
                                        Error::UnknownLexeme { lexeme: lex_text, input: input_text },
                                    );
                                },
                            }
                        }
                    },
                }
            },
        }
        i += 1;
        proof {
            assert(shunting_spec(input@) == sy_run(lsv, input@, i as int, out@, ops@, prev)) by {
                assert(sy_run(lsv, input@, i - 1, out0, ops0, prev0) == sy_run(
                    lsv,
                    input@,
                    i as int,
                    out@,
                    ops@,
                    prev,
                ));
            }
        }
    }
    let ghost gops0 = ops@;
    let ghost gout0 = out@;
    proof {
        assert(shunting_spec(input@) == final_flush(gops0, gout0));
    }
    while ops.len() > 0
        invariant
            final_flush(gops0, gout0) == final_flush(ops@, out@),
            shunting_spec(input@) == final_flush(gops0, gout0),
        decreases ops@.len(),
    {
        let top = ops[ops.len() - 1];
        let ghost opsb = ops@;
        let ghost outb = out@;
        match top {
            StackSym::Paren => {
                proof {
                    assert(opsb.last() == StackSym::Paren);
                    assert(final_flush(gops0, gout0) == Err::<Seq<Token>, SpecErr>(
                        SpecErr::MismatchedParenthesis,
                    ));
                    assert(shunting_spec(input@) == Err::<Seq<Token>, SpecErr>(
                        SpecErr::MismatchedParenthesis,
                    ));
                }
                return Err(Error::MismatchedParenthesis);
            },
            StackSym::Op(t) => {
                ops.pop();
                out.push(Token::Op(t));
                proof {
                    assert(opsb.last() == StackSym::Op(t));
                    assert(ops@ =~= opsb.drop_last());
                    assert(final_flush(opsb, outb) == final_flush(ops@, out@));
                }
            },
        }
    }
    proof {
        assert(final_flush(ops@, out@) == Ok::<Seq<Token>, SpecErr>(out@));
        assert(shunting_spec(input@) == Ok::<Seq<Token>, SpecErr>(out@));
    }
    Ok(out)
}

} // verus!

verus! {

/// Builds the expression tree from a postfix token run: operands are
/// pushed, negation takes one argument, every other operator takes two
/// (right popped first), and whatever ends on top is the result; see
/// [`to_ast_spec`].
pub fn to_ast(tokens: &Vec<Token>) -> (r: Result<Expr, Error>)
    ensures
        (match r {
            Ok(e) => to_ast_spec(tokens@) == Ok::<SpecExpr, SpecErr>(e@),
            Err(e) => to_ast_spec(tokens@) == Err::<SpecExpr, SpecErr>(e@),
        }),
{
    let mut stack: Vec<Expr> = Vec::new();
    let n = tokens.len();
    let mut i: usize = 0;
    proof {
        assert(expr_view_seq(stack@, stack@.len() as int) =~= Seq::<SpecExpr>::empty());
    }
    while i < n
        invariant
            i <= n,
            n == tokens@.len(),
            ast_run(tokens@, 0, Seq::empty()) == ast_run(
                tokens@,
                i as int,
                expr_view_seq(stack@, stack@.len() as int),
            ),
        decreases n - i,
    {
        let ghost sb = stack@;
        let ghost sv = expr_view_seq(sb, sb.len() as int);
        proof {
            lemma_expr_view_seq(sb, sb.len() as int);
        }
        let tok = tokens[i];
        match tok {
            Token::Num(nb) => {
                stack.push(Expr::Num(nb));
                proof {
                    lemma_expr_view_seq(stack@, stack@.len() as int);
                    assert(expr_view_seq(stack@, stack@.len() as int) =~= sv.push(
                        SpecExpr::Num(nb),
                    ));
                }
            },
            Token::CellRef(id) => {
                stack.push(Expr::CellRef(id));
                proof {
                    lemma_expr_view_seq(stack@, stack@.len() as int);
                    assert(expr_view_seq(stack@, stack@.len() as int) =~= sv.push(
                        SpecExpr::CellRef(id),
                    ));
                }
            },
            Token::Op(op) => {
                if op == Op::Neg {
                    let popped = stack.pop();
                    match popped {
                        None => {
                            proof {
                                assert(sv.len() == 0);
                                assert(ast_run(tokens@, 0, Seq::empty()) == Err::<
                                    Seq<SpecExpr>,
                                    SpecErr,
                                >(SpecErr::MalformedExpression));
                            }
                            return Err(Error::MalformedExpression);
                        },
                        Some(a) => {
                            let ghost av = expr_view(a);
                            let mut args: Vec<Expr> = Vec::new();
                            args.push(a);
                            let e = Expr::Apply { op, args };
                            stack.push(e);
                            proof {
                                lemma_expr_view_seq(stack@, stack@.len() as int);
                                assert(sv.len() >= 1);
                                assert(av == sv.last());
                                assert(stack@[stack@.len() - 1]->Apply_args@ =~= seq![a]);
                                assert(expr_view(e) == (SpecExpr::Apply {
                                    op,
                                    args: expr_view_seq(stack@[stack@.len() - 1]->Apply_args@, 1),
                                }));
                                lemma_expr_view_seq(stack@[stack@.len() - 1]->Apply_args@, 1);
                                assert(expr_view_seq(stack@[stack@.len() - 1]->Apply_args@, 1)
                                    =~= seq![av]);
                                assert forall|j: int| 0 <= j < stack@.len() - 1 implies stack@[j]
                                    == sb[j] by {}
                                assert(expr_view_seq(stack@, stack@.len() as int) =~= sv.drop_last(
                                ).push(SpecExpr::Apply { op, args: seq![sv.last()] }));
                            }
                        },
                    }
                } else {
                    let popped_r = stack.pop();
                    let right = match popped_r {
                        None => {
                            proof {
                                assert(sv.len() == 0);
                                assert(ast_run(tokens@, 0, Seq::empty()) == Err::<
                                    Seq<SpecExpr>,
                                    SpecErr,
                                >(SpecErr::MalformedExpression));
                            }
                            return Err(Error::MalformedExpression);
                        },
                        Some(x) => x,
                    };
                    let popped_l = stack.pop();
                    let left = match popped_l {
                        None => {
                            proof {
                                assert(sv.len() == 1);
                                assert(ast_run(tokens@, 0, Seq::empty()) == Err::<
                                    Seq<SpecExpr>,
                                    SpecErr,
                                >(SpecErr::MalformedExpression));
                            }
                            return Err(Error::MalformedExpression);
                        },
                        Some(x) => x,
                    };
                    let ghost lv = expr_view(left);
                    let ghost rv = expr_view(right);
                    let mut args: Vec<Expr> = Vec::new();
                    args.push(left);
                    args.push(right);
                    let e = Expr::Apply { op, args };
                    stack.push(e);
                    proof {
                        lemma_expr_view_seq(stack@, stack@.len() as int);
                        assert(sv.len() >= 2);
                        assert(rv == sv.last());
                        assert(lv == sv[sv.len() - 2]);
                        assert(expr_view(e) == (SpecExpr::Apply {
                            op,
                            args: expr_view_seq(stack@[stack@.len() - 1]->Apply_args@, 2),
                        }));
                        lemma_expr_view_seq(stack@[stack@.len() - 1]->Apply_args@, 2);
                        assert(expr_view_seq(stack@[stack@.len() - 1]->Apply_args@, 2) =~= seq![
                            lv,
                            rv,
                        ]);
                        assert forall|j: int| 0 <= j < stack@.len() - 1 implies stack@[j]
                            == sb[j] by {}
                        assert(expr_view_seq(stack@, stack@.len() as int)
                            =~= sv.drop_last().drop_last().push(
                            SpecExpr::Apply { op, args: seq![sv[sv.len() - 2], sv.last()] },
                        ));
                    }
                }
            },
        }
        i += 1;
    }
    let last = stack.pop();
    match last {
        None => {
            proof {
                assert(expr_view_seq(stack@, stack@.len() as int).len() == 0);
            }
            Err(Error::MalformedExpression)
        },
        Some(e) => {
            proof {
                lemma_expr_view_seq(stack@.push(e), stack@.len() as int + 1);
            }
            Ok(e)
        },
    }
}

/// Parses raw cell text.  Trimmed text starting with `=` is a formula:
/// its leading `=` signs are stripped and the rest runs through the
/// shunting yard and the tree build.  Anything else becomes the number it
/// reads as, or stays the raw text itself; see [`parse_spec`].
pub fn parse(input: &str) -> (r: Result<Expr, Error>)
    ensures
        parse_result_view(r) == parse_spec(input@),
{
    let chars = chars_of_str(input);
    let t = trim_chars(&chars);
    if t.len() > 0 && t[0] == '=' {
        let mut a: usize = 0;
        proof {
            assert(t@.skip(0) =~= t@);
        }
        while a < t.len() && t[a] == '='
            invariant
                a <= t@.len(),
                skip_eqs(t@) == skip_eqs(t@.skip(a as int)),
            decreases t@.len() - a,
        {
            proof {
                assert(t@.skip(a as int)[0] == t@[a as int]);
                assert(t@.skip(a as int).drop_first() =~= t@.skip(a + 1));
            }
            a += 1;
        }
        proof {
            if a < t@.len() {
                assert(t@.skip(a as int)[0] == t@[a as int]);
            }
            assert(skip_eqs(t@) == t@.skip(a as int));
        }
        let mut body: Vec<char> = Vec::new();
        let mut i: usize = a;
        while i < t.len()
            invariant
                a <= i <= t@.len(),
                body@ == t@.skip(a as int).take(i - a),
            decreases t@.len() - i,
        {
            body.push(t[i]);
            proof {
                assert(t@.skip(a as int)[i - a] == t@[i as int]);
                assert(t@.skip(a as int).take(i - a).push(t@.skip(a as int)[i - a]) =~= t@.skip(
                    a as int,
                ).take(i + 1 - a));
            }
            i += 1;
        }
        proof {
            assert(t@.skip(a as int).take(t@.len() - a) =~= t@.skip(a as int));
            assert(body@ == skip_eqs(t@));
        }
        let body_str = string_of_chars(&body);
        let toks = match shunting_yard(body_str.as_str()) {
            Err(e) => {
                return Err(e);
            },
            Ok(ts) => ts,
        };
        to_ast(&toks)
    } else {
        let num = parse_number(&t);
        match num {
            Some(b) => Ok(Expr::Num(b)),
            None => Ok(Expr::Str(input.to_owned())),
        }
    }
}

} // verus!
