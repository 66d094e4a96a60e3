//! The expression parser: precedence, associativity and rejection of
//! malformed expressions.

use timecalc::calc::parse::{parse_expression, Expr, Literal, BinaryOp, UnaryOp};
use timecalc::dec::Decimal;
use timecalc::time::Time;

#[test]
fn parse_simple_expression() {
        assert_parse_expression("1 + 2",
            Expr::Binary(
                Box::new(Expr::Literal(Literal::Number(dec("1")))),
                BinaryOp::Add,
                Box::new(Expr::Literal(Literal::Number(dec("2"))))
            )
        );

        assert_parse_expression("3 - 4",
            Expr::Binary(
                Box::new(Expr::Literal(Literal::Number(dec("3")))),
                BinaryOp::Subtract,
                Box::new(Expr::Literal(Literal::Number(dec("4"))))
            )
        );

        assert_parse_expression("5 * 6",
            Expr::Binary(
                Box::new(Expr::Literal(Literal::Number(dec("5")))),
                BinaryOp::Multiply,
                Box::new(Expr::Literal(Literal::Number(dec("6"))))
            )
        );

        assert_parse_expression("7 / 8",
            Expr::Binary(
                Box::new(Expr::Literal(Literal::Number(dec("7")))),
                BinaryOp::Divide,
                Box::new(Expr::Literal(Literal::Number(dec("8"))))
            )
        );

        assert_parse_expression("-9",
            Expr::Unary(UnaryOp::Negative, Box::new(Expr::Literal(Literal::Number(dec("9"))))));


        assert_parse_expression("10s + 00:20",
            Expr::Binary(
                Box::new(Expr::Literal(Literal::Time(Time::builder().seconds(10).build()))),
                BinaryOp::Add,
                Box::new(Expr::Literal(Literal::Time(Time::builder().seconds(20).build())))
            )
        );

        assert_parse_expression("30:00 - 00:40:00",
            Expr::Binary(
                Box::new(Expr::Literal(Literal::Time(Time::builder().minutes(30).build()))),
                BinaryOp::Subtract,
                Box::new(Expr::Literal(Literal::Time(Time::builder().minutes(40).build())))
            )
        );

        assert_parse_expression("5:00:00 * 123.456",
            Expr::Binary(
                Box::new(Expr::Literal(Literal::Time(Time::builder().hours(5).build()))),
                BinaryOp::Multiply,
                Box::new(Expr::Literal(Literal::Number(dec("123.456"))))
            )
        );

        assert_parse_expression("66:00:00 / 77:00:00",
            Expr::Binary(
                Box::new(Expr::Literal(Literal::Time(Time::builder().hours(66).build()))),
                BinaryOp::Divide,
                Box::new(Expr::Literal(Literal::Time(Time::builder().hours(77).build())))
            )
        );

        assert_parse_expression("8:08:08 / 987.654",
            Expr::Binary(
                Box::new(Expr::Literal(Literal::Time(Time::builder().hours(8).minutes(8).seconds(8).build()))),
                BinaryOp::Divide,
                Box::new(Expr::Literal(Literal::Number(dec("987.654"))))
            )
        );

        assert_parse_expression("-9876:54:32.10",
            Expr::Unary(
                UnaryOp::Negative,
                Box::new(Expr::Literal(Literal::Time(
                    Time::builder().hours(9876).minutes(54).seconds(32).nanoseconds(100000000).build()
                )))
            )
        );
    }

#[test]
fn parse_complex_expression() {
        assert_parse_expression("1+2*3-4/5",
            Expr::Binary(
                Box::new(Expr::Binary(
                    Box::new(Expr::Literal(Literal::Number(dec("1")))),
                    BinaryOp::Add,
                    Box::new(Expr::Binary(
                        Box::new(Expr::Literal(Literal::Number(dec("2")))),
                        BinaryOp::Multiply,
                        Box::new(Expr::Literal(Literal::Number(dec("3"))))
                    ))
                )),
                BinaryOp::Subtract,
                Box::new(Expr::Binary(
                    Box::new(Expr::Literal(Literal::Number(dec("4")))),
                    BinaryOp::Divide,
                    Box::new(Expr::Literal(Literal::Number(dec("5"))))
                ))
            )
        );

        assert_parse_expression("1:00:00 - 22:22 / 30:00 * 4:04:04 + 5:55:55",
            Expr::Binary(
                Box::new(Expr::Binary(
                    Box::new(Expr::Literal(Literal::Time(
                        Time::builder().hours(1).build()
                    ))),
                    BinaryOp::Subtract,
                    Box::new(Expr::Binary(
                        Box::new(Expr::Binary(
                            Box::new(Expr::Literal(Literal::Time(
                                Time::builder().minutes(22).seconds(22).build()
                            ))),
                            BinaryOp::Divide,
                            Box::new(Expr::Literal(Literal::Time(
                                Time::builder().minutes(30).build()
                            )))
                        )),
                        BinaryOp::Multiply,
                        Box::new(Expr::Literal(Literal::Time(
                            Time::builder().hours(4).minutes(4).seconds(4).build()
                        )))
                    ))
                )),
                BinaryOp::Add,
                Box::new(Expr::Literal(Literal::Time(
                    Time::builder().hours(5).minutes(55).seconds(55).build()
                )))
            )
        );

        assert_parse_expression(
            "((-10:10:10 + 22:22) * -(3.33 / -4.44)) - (5:00:00 + -0:06:06) / 7.77",
            Expr::Binary(
                Box::new(Expr::Binary(
                    Box::new(Expr::Binary(
                        Box::new(Expr::Unary(
                            UnaryOp::Negative,
                            Box::new(Expr::Literal(Literal::Time(
                                Time::builder().hours(10).minutes(10).seconds(10).build()
                            )))
                        )),
                        BinaryOp::Add,
                        Box::new(Expr::Literal(Literal::Time(
                            Time::builder().minutes(22).seconds(22).build()
                        )))
                    )),
                    BinaryOp::Multiply,
                    Box::new(Expr::Unary(
                        UnaryOp::Negative,
                        Box::new(Expr::Binary(
                            Box::new(Expr::Literal(Literal::Number(dec("3.33")))),
                            BinaryOp::Divide,
                            Box::new(Expr::Unary(
                                UnaryOp::Negative,
                                Box::new(Expr::Literal(Literal::Number(dec("4.44"))))
                            ))
                        ))
                    ))
                )),
                BinaryOp::Subtract,
                Box::new(Expr::Binary(
                    Box::new(Expr::Binary(
                        Box::new(Expr::Literal(Literal::Time(
                            Time::builder().hours(5).build()
                        ))),
                        BinaryOp::Add,
                        Box::new(Expr::Unary(
                            UnaryOp::Negative,
                            Box::new(Expr::Literal(Literal::Time(
                                Time::builder().minutes(6).seconds(6).build()
                            )))
                        ))
                    )),
                    BinaryOp::Divide,
                    Box::new(Expr::Literal(Literal::Number(dec("7.77"))))
                ))
            )
        );
    }

#[test]
fn parse_invalid() {
        assert!(parse_expression("+ 1").is_err());
        assert!(parse_expression("20:00:02 -").is_err());
        assert!(parse_expression("(3 * 4").is_err());
        assert!(parse_expression("5:55:55 / 6:06:06 +").is_err());
        assert!(parse_expression("7 + 8:08:08 )").is_err());
        assert!(parse_expression("0:09:09 * 10 ) + 11:11:11").is_err());
    }

fn dec(s: &str) -> Decimal {
    Decimal::parse(s).unwrap()
}

fn assert_parse_expression(input: &str, expr: Expr) {
    assert_eq!(parse_expression(input).unwrap(), expr);
}
