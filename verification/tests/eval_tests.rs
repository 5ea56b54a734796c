use cells::cell_id::CellId;
use cells::error::Error;
use cells::expr::Expr::{Num, Str};
use cells::expr::{eval, Cells, Expr, Values};
use cells::parser::parse;
use cells::topological::topological_sort;

fn id(col: char, row: usize) -> CellId {
    CellId { col, row }
}

#[test]
fn expr_topolotical_sort_test() {
    let mut exprs = Cells::new();
    exprs.insert(id('A', 1), parse("= (B1 / -C1 ^ 2) * 8").unwrap());
    exprs.insert(id('B', 1), Num(15.0f64.to_bits()));
    exprs.insert(id('C', 1), Num(3.0f64.to_bits()));

    let ordering = topological_sort(&exprs).unwrap();
    assert_eq!(ordering.len(), 3);
    assert_eq!(*ordering.last().unwrap(), id('A', 1));
}

#[test]
fn topological_topolotical_sort_test() {
    let mut exprs = Cells::new();
    exprs.insert(id('A', 1), parse("= (B1 / -C1 ^ 2) * 8").unwrap());
    exprs.insert(id('B', 1), Num(15.0f64.to_bits()));
    exprs.insert(id('C', 1), Num(3.0f64.to_bits()));

    let ordering = topological_sort(&exprs).unwrap();
    assert_eq!(ordering.len(), 3);
    assert_eq!(*ordering.last().unwrap(), id('A', 1));
}

#[test]
fn expr_eval_test() {
    let expr = parse("= A1 - (A2 - A3 ^ B1 / 2.5) + C1").unwrap();
    let mut ctx = Values::new();
    ctx.insert(id('A', 1), 12.0f64.to_bits());
    ctx.insert(id('A', 2), 500.5f64.to_bits());
    ctx.insert(id('A', 3), (-3.1415f64).to_bits());
    ctx.insert(id('B', 1), 2.0f64.to_bits());
    ctx.insert(id('C', 1), 0.2187456f64.to_bits());
    assert_eq!(
        expr.eval(&ctx).unwrap(),
        (-484.33364550000005f64).to_bits()
    );
}

#[test]
fn power_right_associative_test() {
    // 2^3^2 groups to the right: 2^(3^2) = 512, not (2^3)^2 = 64
    let expr = parse("=2^3^2").unwrap();
    let ctx = Values::new();
    assert_eq!(expr.eval(&ctx).unwrap(), 512.0f64.to_bits());
}

#[test]
fn eval_table_seed_test() {
    let mut exprs = Cells::new();
    exprs.insert(id('A', 1), parse("12").unwrap());
    exprs.insert(id('A', 2), parse("500.5").unwrap());
    exprs.insert(id('A', 3), parse("-3.1415").unwrap());
    exprs.insert(id('B', 1), parse("2").unwrap());
    exprs.insert(id('C', 1), parse("0.2187456").unwrap());
    exprs.insert(id('D', 1), parse("= A1 - (A2 - A3 ^ B1 / 2.5) + C1").unwrap());

    let computed = eval(&exprs).unwrap();
    assert_eq!(
        computed.get(&id('D', 1)),
        Some(&Num((-484.33364550000005f64).to_bits()))
    );
    assert_eq!(computed.get(&id('A', 1)), Some(&Num(12.0f64.to_bits())));
}

#[test]
fn eval_idempotent_test() {
    let mut exprs = Cells::new();
    exprs.insert(id('A', 1), parse("12").unwrap());
    exprs.insert(id('A', 2), parse("500.5").unwrap());
    exprs.insert(id('A', 3), parse("-3.1415").unwrap());
    exprs.insert(id('B', 1), parse("2").unwrap());
    exprs.insert(id('C', 1), parse("0.2187456").unwrap());
    exprs.insert(id('D', 1), parse("= A1 - (A2 - A3 ^ B1 / 2.5) + C1").unwrap());
    exprs.insert(id('E', 1), parse("hello").unwrap());

    let computed = eval(&exprs).unwrap();
    let again = eval(&computed).unwrap();
    for (col, row) in [('A', 1), ('A', 2), ('A', 3), ('B', 1), ('C', 1), ('D', 1), ('E', 1)] {
        assert_eq!(again.get(&id(col, row)), computed.get(&id(col, row)));
    }
}

#[test]
fn eval_cycle_test() {
    let mut exprs = Cells::new();
    exprs.insert(id('A', 1), parse("=B1").unwrap());
    exprs.insert(id('B', 1), parse("=A1").unwrap());

    match eval(&exprs).unwrap_err() {
        Error::Cycle { ids } => {
            assert_eq!(ids.len(), 2);
            assert!(ids.contains(&id('A', 1)));
            assert!(ids.contains(&id('B', 1)));
        }
        other => panic!("expected a cycle error, got `{}`", other.message()),
    }
}

#[test]
fn eval_unresolved_reference_test() {
    let mut exprs = Cells::new();
    exprs.insert(id('A', 1), parse("=B1").unwrap());

    match eval(&exprs).unwrap_err() {
        Error::Cycle { ids } => {
            assert_eq!(ids, vec![id('A', 1)]);
        }
        other => panic!("expected a non-computable reference error, got `{}`", other.message()),
    }
}

#[test]
fn eval_strings_test() {
    let mut exprs = Cells::new();
    exprs.insert(id('A', 1), parse("hi there").unwrap());
    exprs.insert(id('B', 1), parse("= A1").unwrap());

    let computed = eval(&exprs).unwrap();
    assert_eq!(computed.get(&id('A', 1)), Some(&Str("hi there".to_string())));
    // a reference copies the referenced cell's computed text
    assert_eq!(computed.get(&id('B', 1)), Some(&Str("hi there".to_string())));

    // but a string cannot take part in arithmetic
    let mut exprs2 = Cells::new();
    exprs2.insert(id('A', 1), parse("hi").unwrap());
    exprs2.insert(id('B', 1), parse("= A1 + 1").unwrap());
    assert!(eval(&exprs2).is_err());
}

#[test]
fn eval_division_by_zero_test() {
    let expr = parse("=1/0").unwrap();
    let ctx = Values::new();
    assert_eq!(expr.eval(&ctx).unwrap(), f64::INFINITY.to_bits());
}

#[test]
fn eval_empty_table_test() {
    let exprs = Cells::new();
    let computed = eval(&exprs).unwrap();
    assert_eq!(computed.len(), 0);
}

#[test]
fn topological_order_respects_deps_test() {
    // a diamond: D1 needs B1 and C1, which both need A1
    let mut exprs = Cells::new();
    exprs.insert(id('D', 1), parse("= B1 + C1").unwrap());
    exprs.insert(id('B', 1), parse("= A1 + 1").unwrap());
    exprs.insert(id('C', 1), parse("= A1 * 2").unwrap());
    exprs.insert(id('A', 1), parse("3").unwrap());

    let ordering = topological_sort(&exprs).unwrap();
    let pos = |c: char| ordering.iter().position(|x| *x == id(c, 1)).unwrap();
    assert!(pos('A') < pos('B'));
    assert!(pos('A') < pos('C'));
    assert!(pos('B') < pos('D'));
    assert!(pos('C') < pos('D'));
}

#[test]
fn unresolved_reference_inside_formula_test() {
    let expr = parse("= Z9 + 1").unwrap();
    let ctx = Values::new();
    assert_eq!(
        expr.eval(&ctx).unwrap_err().message(),
        "cannot resolve reference to Z09"
    );
}

#[test]
fn eval_arity_error_test() {
    // a hand-built application with a missing argument is rejected, not a panic
    let expr = Expr::Apply {
        op: cells::expr::Op::Add,
        args: vec![Num(1.0f64.to_bits())],
    };
    let ctx = Values::new();
    assert_eq!(
        expr.eval(&ctx).unwrap_err().message(),
        "operation `+` got an incorrect number of arguments"
    );
    let neg = Expr::Apply {
        op: cells::expr::Op::Neg,
        args: vec![],
    };
    assert!(neg.eval(&ctx).is_err());
}

#[test]
fn eval_string_error_message_test() {
    let expr = Expr::Apply {
        op: cells::expr::Op::Add,
        args: vec![Str("hi".to_string()), Num(1.0f64.to_bits())],
    };
    let ctx = Values::new();
    assert_eq!(expr.eval(&ctx).unwrap_err().message(), "cannot evaluate strings");
}

#[test]
fn cycle_message_names_cells_test() {
    let mut exprs = Cells::new();
    exprs.insert(id('A', 1), parse("=A1").unwrap());
    let err = eval(&exprs).unwrap_err();
    assert_eq!(
        err.message(),
        "cycle or non-computable cell reference detected in cells: A01"
    );
}

#[test]
fn table_insert_replaces_test() {
    let mut exprs = Cells::new();
    exprs.insert(id('A', 1), parse("1").unwrap());
    exprs.insert(id('A', 1), parse("2").unwrap());
    assert_eq!(exprs.len(), 1);
    assert_eq!(exprs.get(&id('A', 1)), Some(&Num(2.0f64.to_bits())));
}

#[test]
fn eval_repeatable_test() {
    // the computed table is a function of the input table alone:
    // repeated runs agree bit for bit
    let mut exprs = Cells::new();
    exprs.insert(id('A', 1), parse("12").unwrap());
    exprs.insert(id('A', 2), parse("500.5").unwrap());
    exprs.insert(id('A', 3), parse("-3.1415").unwrap());
    exprs.insert(id('B', 1), parse("2").unwrap());
    exprs.insert(id('C', 1), parse("0.2187456").unwrap());
    exprs.insert(id('D', 1), parse("= A1 - (A2 - A3 ^ B1 / 2.5) + C1").unwrap());

    let first = eval(&exprs).unwrap();
    let second = eval(&exprs).unwrap();
    for (col, row) in [('A', 1), ('A', 2), ('A', 3), ('B', 1), ('C', 1), ('D', 1)] {
        assert_eq!(first.get(&id(col, row)), second.get(&id(col, row)));
    }
}
