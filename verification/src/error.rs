use crate::cell_id::CellId;
use crate::expr::Op;
use vstd::prelude::*;

verus! {

/// Specification-level model of [`Error`]: every text is a character sequence.
pub enum SpecErr {
    /// An address was parsed from an empty string.
    EmptyCellId,
    /// An address did not start with an upper-case ASCII column letter.
    BadColumn,
    /// The rest of an address was not a positive row number.
    BadRow,
    /// A lexeme was neither a number, an operator, a parenthesis nor an address.
    UnknownLexeme { lexeme: Seq<char>, input: Seq<char> },
    /// A `(` without `)`, or a `)` without `(`.
    MismatchedParenthesis,
    /// A symbol that is none of `+ - * / ^`.
    InvalidOperator { symbol: Seq<char> },
    /// The postfix token run left an operand stack that was empty too early.
    MalformedExpression,
    /// A binary operator was applied to a number of arguments other than two.
    BadArity { op: Op },
    /// An expression read a cell that carries no numeric value.
    UnresolvedRef { id: CellId },
    /// A cell referred to another cell that was never computed.
    EmptyCellRef { referenced: CellId, at: CellId },
    /// A string literal was used as a number.
    StringEval,
    /// Cells whose references can never be resolved (a cycle, or a reference
    /// to a cell with no entry).
    Cycle { ids: Seq<CellId> },
}

/// Everything that can go wrong while parsing an address or a formula,
/// or while evaluating a table.
#[derive(Debug, PartialEq)]
pub enum Error {
    EmptyCellId,
    BadColumn,
    BadRow,
    UnknownLexeme { lexeme: String, input: String },
    MismatchedParenthesis,
    InvalidOperator { symbol: String },
    MalformedExpression,
    BadArity { op: Op },
    UnresolvedRef { id: CellId },
    EmptyCellRef { referenced: CellId, at: CellId },
    StringEval,
    Cycle { ids: Vec<CellId> },
}

impl View for Error {
    type V = SpecErr;

    open spec fn view(&self) -> SpecErr {
        match self {
            Error::EmptyCellId => SpecErr::EmptyCellId,
            Error::BadColumn => SpecErr::BadColumn,
            Error::BadRow => SpecErr::BadRow,
            Error::UnknownLexeme { lexeme, input } => SpecErr::UnknownLexeme {
                lexeme: lexeme@,
                input: input@,
            },
            Error::MismatchedParenthesis => SpecErr::MismatchedParenthesis,
            Error::InvalidOperator { symbol } => SpecErr::InvalidOperator { symbol: symbol@ },
            Error::MalformedExpression => SpecErr::MalformedExpression,
            Error::BadArity { op } => SpecErr::BadArity { op: *op },
            Error::UnresolvedRef { id } => SpecErr::UnresolvedRef { id: *id },
            Error::EmptyCellRef { referenced, at } => SpecErr::EmptyCellRef {
                referenced: *referenced,
                at: *at,
            },
            Error::StringEval => SpecErr::StringEval,
            Error::Cycle { ids } => SpecErr::Cycle { ids: ids@ },
        }
    }
}

/// The view of a result whose error is an [`Error`].
pub open spec fn with_err_view<T>(r: Result<T, Error>) -> Result<T, SpecErr> {
    match r {
        Ok(t) => Ok(t),
        Err(e) => Err(e@),
    }
}

} // verus!

verus! {

/// The text of an operator symbol.
pub open spec fn op_symbol(op: Op) -> Seq<char> {
    match op {
        Op::Neg => "-"@,
        Op::Add => "+"@,
        Op::Sub => "-"@,
        Op::Mul => "*"@,
        Op::Div => "/"@,
        Op::Pow => "^"@,
    }
}

/// The first `k` stuck addresses, written out and separated by commas.
pub open spec fn cycle_text(ids: Seq<CellId>, k: int) -> Seq<char>
    decreases k,
{
    if k <= 0 || k > ids.len() {
        Seq::empty()
    } else if k == 1 {
        crate::cell_id::format_spec(ids[0])
    } else {
        cycle_text(ids, k - 1) + ", "@ + crate::cell_id::format_spec(ids[k - 1])
    }
}

/// The human-readable text of each failure.
pub open spec fn message_spec(e: SpecErr) -> Seq<char> {
    match e {
        SpecErr::EmptyCellId => "malformed cell id: cannot be empty"@,
        SpecErr::BadColumn => "malformed cell id: should start with an ASCII uppercase single char column name"@,
        SpecErr::BadRow => "malformed cell id: missing or non-existent row (should be a positive integer)"@,
        SpecErr::UnknownLexeme { lexeme, input } => "unknown lexem `"@ + lexeme + "` in `"@ + input
            + "`"@,
        SpecErr::MismatchedParenthesis => "mismatched parenthesis"@,
        SpecErr::InvalidOperator { symbol } => "`"@ + symbol + "` is not a valid operator."@,
        SpecErr::MalformedExpression => "empty stack when trying to build operator's AST"@,
        SpecErr::BadArity { op } => "operation `"@ + op_symbol(op)
            + "` got an incorrect number of arguments"@,
        SpecErr::UnresolvedRef { id } => "cannot resolve reference to "@
            + crate::cell_id::format_spec(id),
        SpecErr::EmptyCellRef { referenced, at } => "reference to an empty cell "@
            + crate::cell_id::format_spec(referenced) + " in cell "@ + crate::cell_id::format_spec(
            at,
        ),
        SpecErr::StringEval => "cannot evaluate strings"@,
        SpecErr::Cycle { ids } => "cycle or non-computable cell reference detected in cells: "@
            + cycle_text(ids, ids.len() as int),
    }
}

impl Error {
    /// The failure, described in words.
    pub fn message(&self) -> (r: String)
        ensures
            r@ == message_spec(self@),
    {
        match self {
            Error::EmptyCellId => String::from_str("malformed cell id: cannot be empty"),
            Error::BadColumn => String::from_str(
                "malformed cell id: should start with an ASCII uppercase single char column name",
            ),
            Error::BadRow => String::from_str(
                "malformed cell id: missing or non-existent row (should be a positive integer)",
            ),
            Error::UnknownLexeme { lexeme, input } => {
                let mut m = String::from_str("unknown lexem `");
                m.append(lexeme.as_str());
                m.append("` in `");
                m.append(input.as_str());
                m.append("`");
                m
            },
            Error::MismatchedParenthesis => String::from_str("mismatched parenthesis"),
            Error::InvalidOperator { symbol } => {
                let mut m = String::from_str("`");
                m.append(symbol.as_str());
                m.append("` is not a valid operator.");
                m
            },
            Error::MalformedExpression => String::from_str(
                "empty stack when trying to build operator's AST",
            ),
            Error::BadArity { op } => {
                let mut m = String::from_str("operation `");
                let sym = match op {
                    Op::Neg => "-",
                    Op::Add => "+",
                    Op::Sub => "-",
                    Op::Mul => "*",
                    Op::Div => "/",
                    Op::Pow => "^",
                };
                m.append(sym);
                m.append("` got an incorrect number of arguments");
                m
            },
            Error::UnresolvedRef { id } => {
                let mut m = String::from_str("cannot resolve reference to ");
                let f = id.format();
                m.append(f.as_str());
                m
            },
            Error::EmptyCellRef { referenced, at } => {
                let mut m = String::from_str("reference to an empty cell ");
                let f1 = referenced.format();
                m.append(f1.as_str());
                m.append(" in cell ");
                let f2 = at.format();
                m.append(f2.as_str());
                m
            },
            Error::StringEval => String::from_str("cannot evaluate strings"),
            Error::Cycle { ids } => {
                let mut m = String::from_str(
                    "cycle or non-computable cell reference detected in cells: ",
                );
                let n = ids.len();
                let mut t: usize = 0;
                let mut body = String::new();
                while t < n
                    invariant
                        t <= n,
                        n == ids@.len(),
                        body@ == cycle_text(ids@, t as int),
                    decreases n - t,
                {
                    if t > 0 {
                        body.append(", ");
                    }
                    let f = ids[t].format();
                    body.append(f.as_str());
                    t += 1;
                    proof {
                        if t == 1 {
                            assert(Seq::<char>::empty() + crate::cell_id::format_spec(
                                ids@[0],
                            ) =~= crate::cell_id::format_spec(ids@[0]));
                            assert(body@ =~= cycle_text(ids@, 1));
                        }
                    }
                }
                m.append(body.as_str());
                m
            },
        }
    }
}

} // verus!
