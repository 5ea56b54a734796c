use cells::cell_id::CellId;
use cells::expr::Expr::{Apply, CellRef, Num, Str};
use cells::expr::Op::{Add, Div, Mul, Neg, Pow, Sub};
use cells::parser::{parse, shunting_yard, to_ast, Token};

#[test]
fn shunting_yard_test() {
    assert_eq!(
        shunting_yard("12 + 5 ^ 3").unwrap(),
        vec![
            Token::Num(12.0f64.to_bits()),
            Token::Num(5.0f64.to_bits()),
            Token::Num(3.0f64.to_bits()),
            Token::Op(Pow),
            Token::Op(Add)
        ]
    );

    assert_eq!(
        shunting_yard("12 + 5 ^ 3 - 8 / 2 * 3.5 + 6.5").unwrap(),
        vec![
            Token::Num(12.0f64.to_bits()),
            Token::Num(5.0f64.to_bits()),
            Token::Num(3.0f64.to_bits()),
            Token::Op(Pow),
            Token::Op(Add),
            Token::Num(8.0f64.to_bits()),
            Token::Num(2.0f64.to_bits()),
            Token::Op(Div),
            Token::Num(3.5f64.to_bits()),
            Token::Op(Mul),
            Token::Op(Sub),
            Token::Num(6.5f64.to_bits()),
            Token::Op(Add)
        ]
    );

    assert_eq!(
        shunting_yard("(12 + 5) ^ 3").unwrap(),
        vec![
            Token::Num(12.0f64.to_bits()),
            Token::Num(5.0f64.to_bits()),
            Token::Op(Add),
            Token::Num(3.0f64.to_bits()),
            Token::Op(Pow)
        ]
    );

    assert_eq!(
        shunting_yard("12 + 5 ^ (3 - 8 / 2 * 3.5) + 6.5").unwrap(),
        vec![
            Token::Num(12.0f64.to_bits()),
            Token::Num(5.0f64.to_bits()),
            Token::Num(3.0f64.to_bits()),
            Token::Num(8.0f64.to_bits()),
            Token::Num(2.0f64.to_bits()),
            Token::Op(Div),
            Token::Num(3.5f64.to_bits()),
            Token::Op(Mul),
            Token::Op(Sub),
            Token::Op(Pow),
            Token::Op(Add),
            Token::Num(6.5f64.to_bits()),
            Token::Op(Add)
        ]
    );

    assert_eq!(
        shunting_yard("12 + 5 ^ (3 - 8 / 2 * 3.5 + 6.5")
            .unwrap_err()
            .message(),
        "mismatched parenthesis"
    );

    assert_eq!(
        shunting_yard("12 + 5 ^ (3 - 8 / 2 * (3.5) + 6.5")
            .unwrap_err()
            .message(),
        "mismatched parenthesis"
    );

    assert_eq!(
        shunting_yard("12 + 5 ^ 3 - 8 / 2 * 3.5) + 6.5")
            .unwrap_err()
            .message(),
        "mismatched parenthesis"
    );
}

#[test]
fn to_ast_test() {
    assert_eq!(
        to_ast(&vec![
            Token::Num(12.0f64.to_bits()),
            Token::Num(5.0f64.to_bits()),
            Token::Num(3.0f64.to_bits()),
            Token::Op(Pow),
            Token::Op(Add)
        ])
        .unwrap(),
        Apply {
            op: Add,
            args: vec![
                Num(12.0f64.to_bits()),
                Apply {
                    op: Pow,
                    args: vec![Num(5.0f64.to_bits()), Num(3.0f64.to_bits())]
                }
            ]
        }
    );
}

#[test]
fn parse_test() {
    assert_eq!(parse("12"), Ok(Num(12.0f64.to_bits())));
    assert_eq!(parse("yo"), Ok(Str("yo".to_string())));

    assert_eq!(parse("A12"), Ok(Str("A12".to_string())));
    assert_eq!(parse("= A12"), Ok(CellRef(CellId { col: 'A', row: 12 })));

    assert_eq!(parse("=12"), Ok(Num(12.0f64.to_bits())));
    assert_eq!(parse("=12.2"), Ok(Num(12.2f64.to_bits())));
    assert_eq!(
        parse("= -12.2"),
        Ok(Apply {
            op: Neg,
            args: vec![Num(12.2f64.to_bits())]
        })
    );

    assert_eq!(
        parse("= -12.2 * 4"),
        Ok(Apply {
            op: Mul,
            args: vec![
                Apply {
                    op: Neg,
                    args: vec![Num(12.2f64.to_bits())]
                },
                Num(4.0f64.to_bits())
            ]
        })
    );

    assert_eq!(
        parse("= -12.2 - 5"),
        Ok(Apply {
            op: Sub,
            args: vec![
                Apply {
                    op: Neg,
                    args: vec![Num(12.2f64.to_bits())]
                },
                Num(5.0f64.to_bits())
            ]
        })
    );

    assert_eq!(
        parse("= 12.2 + 5"),
        Ok(Apply {
            op: Add,
            args: vec![Num(12.2f64.to_bits()), Num(5.0f64.to_bits())]
        })
    );

    assert_eq!(
        parse("= 12.2 + 5 / -8.12"),
        Ok(Apply {
            op: Add,
            args: vec![
                Num(12.2f64.to_bits()),
                Apply {
                    op: Div,
                    args: vec![
                        Num(5.0f64.to_bits()),
                        Apply {
                            op: Neg,
                            args: vec![Num(8.12f64.to_bits())]
                        }
                    ]
                }
            ]
        })
    );

    assert_eq!(
        parse("=8*12.2*3 + 5 / (-8.12+89.8-8)"),
        Ok(Apply {
            op: Add,
            args: vec![
                Apply {
                    op: Mul,
                    args: vec![
                        Apply {
                            op: Mul,
                            args: vec![Num(8.0f64.to_bits()), Num(12.2f64.to_bits())]
                        },
                        Num(3.0f64.to_bits())
                    ]
                },
                Apply {
                    op: Div,
                    args: vec![
                        Num(5.0f64.to_bits()),
                        Apply {
                            op: Sub,
                            args: vec![
                                Apply {
                                    op: Add,
                                    args: vec![
                                        Apply {
                                            op: Neg,
                                            args: vec![Num(8.12f64.to_bits())]
                                        },
                                        Num(89.8f64.to_bits())
                                    ]
                                },
                                Num(8.0f64.to_bits())
                            ]
                        }
                    ]
                }
            ]
        })
    );

    assert_eq!(
        parse("= 12.2 + A5"),
        Ok(Apply {
            op: Add,
            args: vec![
                Num(12.2f64.to_bits()),
                CellRef(CellId { col: 'A', row: 5 })
            ]
        })
    );

    assert_eq!(
        parse("=K12*12.2*3 + 5 / (-8.12+B5-8)"),
        Ok(Apply {
            op: Add,
            args: vec![
                Apply {
                    op: Mul,
                    args: vec![
                        Apply {
                            op: Mul,
                            args: vec![
                                CellRef(CellId { col: 'K', row: 12 }),
                                Num(12.2f64.to_bits())
                            ]
                        },
                        Num(3.0f64.to_bits())
                    ]
                },
                Apply {
                    op: Div,
                    args: vec![
                        Num(5.0f64.to_bits()),
                        Apply {
                            op: Sub,
                            args: vec![
                                Apply {
                                    op: Add,
                                    args: vec![
                                        Apply {
                                            op: Neg,
                                            args: vec![Num(8.12f64.to_bits())]
                                        },
                                        CellRef(CellId { col: 'B', row: 5 })
                                    ]
                                },
                                Num(8.0f64.to_bits())
                            ]
                        }
                    ]
                }
            ]
        })
    );

    assert_eq!(
        parse("= -C15 - -A5 - (-B5 - (-3.1415 + -C1))"),
        Ok(Apply {
            op: Sub,
            args: vec![
                Apply {
                    op: Sub,
                    args: vec![
                        Apply {
                            op: Neg,
                            args: vec![CellRef(CellId { col: 'C', row: 15 })]
                        },
                        Apply {
                            op: Neg,
                            args: vec![CellRef(CellId { col: 'A', row: 5 })]
                        }
                    ]
                },
                Apply {
                    op: Sub,
                    args: vec![
                        Apply {
                            op: Neg,
                            args: vec![CellRef(CellId { col: 'B', row: 5 })]
                        },
                        Apply {
                            op: Add,
                            args: vec![
                                Apply {
                                    op: Neg,
                                    args: vec![Num(3.1415f64.to_bits())]
                                },
                                Apply {
                                    op: Neg,
                                    args: vec![CellRef(CellId { col: 'C', row: 1 })]
                                }
                            ]
                        }
                    ]
                }
            ]
        })
    );
}

#[test]
fn precedence_test() {
    // division and multiplication bind before addition
    assert_eq!(
        parse("=6 / 2 + 15 * 2"),
        Ok(Apply {
            op: Add,
            args: vec![
                Apply {
                    op: Div,
                    args: vec![Num(6.0f64.to_bits()), Num(2.0f64.to_bits())]
                },
                Apply {
                    op: Mul,
                    args: vec![Num(15.0f64.to_bits()), Num(2.0f64.to_bits())]
                }
            ]
        })
    );
}

#[test]
fn parenthesization_test() {
    // parentheses override precedence
    assert_eq!(
        parse("=6 / (2 + 15) * 2"),
        Ok(Apply {
            op: Mul,
            args: vec![
                Apply {
                    op: Div,
                    args: vec![
                        Num(6.0f64.to_bits()),
                        Apply {
                            op: Add,
                            args: vec![Num(2.0f64.to_bits()), Num(15.0f64.to_bits())]
                        }
                    ]
                },
                Num(2.0f64.to_bits())
            ]
        })
    );
}

#[test]
fn parse_error_test() {
    assert_eq!(
        parse("=foo$").unwrap_err().message(),
        "unknown lexem `foo$` in `foo$`"
    );
    assert_eq!(
        parse("=").unwrap_err().message(),
        "empty stack when trying to build operator's AST"
    );
    assert!(parse("=5+").is_err());
    assert_eq!(
        cells::expr::Op::try_from_symbol("%").unwrap_err().message(),
        "`%` is not a valid operator."
    );
    // whitespace alone around a number still reads as the number
    assert_eq!(parse("  12  "), Ok(Num(12.0f64.to_bits())));
}

#[test]
fn leading_equals_test() {
    // every leading `=` is stripped before the formula is read
    assert_eq!(parse("==5"), Ok(Num(5.0f64.to_bits())));
    assert_eq!(parse("= (5)"), Ok(Num(5.0f64.to_bits())));
}
