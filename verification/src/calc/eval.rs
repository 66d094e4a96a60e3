//! Evaluation of parsed expressions.
//!
//! The evaluator walks the expression tree bottom-up, dispatching on the
//! kinds of the two operands of each binary node: numbers combine under all
//! four operators, times add, subtract and divide among themselves, a time
//! scales by a number, and every other combination is a type error.  Number
//! results are rounded to nine decimal places, halves away from zero, and
//! division by an exact zero is reported rather than attempted.

use vstd::prelude::*;
use crate::dec::{Decimal, spec_add, spec_sub, spec_mul, spec_div, spec_neg, spec_round9};
use crate::time::{Time, from_nanos, in_range, spec_to_decimal, spec_mul_time_dec, spec_div_time_dec};
use crate::calc::parse::{
    parse_expression, spec_parse_expression, Expr, Literal, UnaryOp, BinaryOp, ParseError,
    ParseErrorView, expr_wf,
};

verus! {

/// The value of an expression: a time or a plain number.
#[derive(Clone, Copy, PartialEq, Debug)]
pub enum EvalResult {
    Time(Time),
    Number(Decimal),
}

/// A failure to evaluate an expression.
#[derive(Debug)]
pub enum EvalError {
    ParseError(ParseError),
    MultiplyTimes,
    AddTimeAndNumber,
    SubtractTimeAndNumber,
    DivideNumberByTime,
    DivideByZero,
    Overflow,
}

/// The mathematical shape of an [`EvalError`].
pub enum EvalErrorView {
    ParseError(ParseErrorView),
    MultiplyTimes,
    AddTimeAndNumber,
    SubtractTimeAndNumber,
    DivideNumberByTime,
    DivideByZero,
    Overflow,
}

impl View for EvalError {
    type V = EvalErrorView;

    open spec fn view(&self) -> EvalErrorView {
        match self {
            EvalError::ParseError(pe) => EvalErrorView::ParseError(pe@),
            EvalError::MultiplyTimes => EvalErrorView::MultiplyTimes,
            EvalError::AddTimeAndNumber => EvalErrorView::AddTimeAndNumber,
            EvalError::SubtractTimeAndNumber => EvalErrorView::SubtractTimeAndNumber,
            EvalError::DivideNumberByTime => EvalErrorView::DivideNumberByTime,
            EvalError::DivideByZero => EvalErrorView::DivideByZero,
            EvalError::Overflow => EvalErrorView::Overflow,
        }
    }
}

/// The evaluation outcome with error payloads abstracted to sequences.
pub open spec fn eval_result_view(r: Result<EvalResult, EvalError>) -> Result<
    EvalResult,
    EvalErrorView,
> {
    match r {
        Ok(v) => Ok(v),
        Err(e) => Err(e@),
    }
}

/// Well-formedness of an evaluated value.
pub open spec fn value_wf(v: EvalResult) -> bool {
    match v {
        EvalResult::Time(t) => t.inv(),
        EvalResult::Number(n) => n.valid(),
    }
}

/// What one binary operation produces, by the type-dispatch table.
pub open spec fn spec_eval_binary(op: BinaryOp, v1: EvalResult, v2: EvalResult) -> Result<
    EvalResult,
    EvalErrorView,
> {
    match (v1, v2) {
        (EvalResult::Number(n1), EvalResult::Number(n2)) => match op {
            BinaryOp::Add => match spec_add(n1, n2) {
                Some(d) => Ok(EvalResult::Number(spec_round9(d))),
                None => Err(EvalErrorView::Overflow),
            },
            BinaryOp::Subtract => match spec_sub(n1, n2) {
                Some(d) => Ok(EvalResult::Number(spec_round9(d))),
                None => Err(EvalErrorView::Overflow),
            },
            BinaryOp::Multiply => match spec_mul(n1, n2) {
                Some(d) => Ok(EvalResult::Number(spec_round9(d))),
                None => Err(EvalErrorView::Overflow),
            },
            BinaryOp::Divide => if n2.spec_mantissa() == 0 {
                Err(EvalErrorView::DivideByZero)
            } else {
                match spec_div(n1, n2) {
                    Some(d) => Ok(EvalResult::Number(spec_round9(d))),
                    None => Err(EvalErrorView::Overflow),
                }
            },
        },
        (EvalResult::Time(t1), EvalResult::Time(t2)) => match op {
            BinaryOp::Add => if in_range(t1.nanos_value() + t2.nanos_value()) {
                Ok(EvalResult::Time(from_nanos(t1.nanos_value() + t2.nanos_value())))
            } else {
                Err(EvalErrorView::Overflow)
            },
            BinaryOp::Subtract => if in_range(t1.nanos_value() - t2.nanos_value()) {
                Ok(EvalResult::Time(from_nanos(t1.nanos_value() - t2.nanos_value())))
            } else {
                Err(EvalErrorView::Overflow)
            },
            BinaryOp::Divide => if t2.nanos_value() == 0 {
                Err(EvalErrorView::DivideByZero)
            } else {
                match spec_div(spec_to_decimal(t1), spec_to_decimal(t2)) {
                    Some(d) => Ok(EvalResult::Number(spec_round9(d))),
                    None => Err(EvalErrorView::Overflow),
                }
            },
            BinaryOp::Multiply => Err(EvalErrorView::MultiplyTimes),
        },
        (EvalResult::Time(t), EvalResult::Number(n)) => match op {
            BinaryOp::Multiply => match spec_mul_time_dec(t, n) {
                Some(t2) => Ok(EvalResult::Time(t2)),
                None => Err(EvalErrorView::Overflow),
            },
            BinaryOp::Divide => if n.spec_mantissa() == 0 {
                Err(EvalErrorView::DivideByZero)
            } else {
                match spec_div_time_dec(t, n) {
                    Some(t2) => Ok(EvalResult::Time(t2)),
                    None => Err(EvalErrorView::Overflow),
                }
            },
            BinaryOp::Add => Err(EvalErrorView::AddTimeAndNumber),
            BinaryOp::Subtract => Err(EvalErrorView::SubtractTimeAndNumber),
        },
        (EvalResult::Number(n), EvalResult::Time(t)) => match op {
            BinaryOp::Multiply => match spec_mul_time_dec(t, n) {
                Some(t2) => Ok(EvalResult::Time(t2)),
                None => Err(EvalErrorView::Overflow),
            },
            BinaryOp::Add => Err(EvalErrorView::AddTimeAndNumber),
            BinaryOp::Subtract => Err(EvalErrorView::SubtractTimeAndNumber),
            BinaryOp::Divide => Err(EvalErrorView::DivideNumberByTime),
        },
    }
}

/// What evaluating an expression tree produces, bottom-up, stopping at the
/// first failure.
pub open spec fn spec_eval_expr(e: Expr) -> Result<EvalResult, EvalErrorView>
    decreases e,
{
    match e {
        Expr::Literal(Literal::Number(n)) => Ok(EvalResult::Number(n)),
        Expr::Literal(Literal::Time(t)) => Ok(EvalResult::Time(t)),
        Expr::Unary(UnaryOp::Negative, inner) => match spec_eval_expr(*inner) {
            Ok(EvalResult::Time(t)) => Ok(EvalResult::Time(from_nanos(-t.nanos_value()))),
            Ok(EvalResult::Number(n)) => Ok(EvalResult::Number(spec_neg(n))),
            Err(er) => Err(er),
        },
        Expr::Binary(l, op, r) => match spec_eval_expr(*l) {
            Ok(v1) => match spec_eval_expr(*r) {
                Ok(v2) => spec_eval_binary(op, v1, v2),
                Err(er) => Err(er),
            },
            Err(er) => Err(er),
        },
    }
}

/// What evaluating expression text produces.
pub open spec fn spec_eval(s: Seq<char>) -> Result<EvalResult, EvalErrorView> {
    match spec_parse_expression(s) {
        Ok(e) => spec_eval_expr(e),
        Err(pe) => Err(EvalErrorView::ParseError(pe)),
    }
}

/// Applies one binary operation to two evaluated values.
fn eval_binary(op: BinaryOp, v1: EvalResult, v2: EvalResult) -> (r: Result<EvalResult, EvalError>)
    requires
        value_wf(v1),
        value_wf(v2),
    ensures
        eval_result_view(r) == spec_eval_binary(op, v1, v2),
        r matches Ok(v) ==> value_wf(v),
{
    proof {
        broadcast use crate::dec::lemma_from_parts;

    }
    match (v1, v2) {
        (EvalResult::Number(n1), EvalResult::Number(n2)) => match op {
            BinaryOp::Add => match n1.checked_add(&n2) {
                Some(d) => {
                    proof {
                        crate::dec::lemma_opt_parts_inj(Some(d), spec_add(n1, n2));
                    }
                    Ok(EvalResult::Number(d.round9()))
                },
                None => {
                    proof {
                        crate::dec::lemma_opt_parts_inj(None::<Decimal>, spec_add(n1, n2));
                    }
                    Err(EvalError::Overflow)
                },
            },
            BinaryOp::Subtract => match n1.checked_sub(&n2) {
                Some(d) => {
                    proof {
                        crate::dec::lemma_opt_parts_inj(Some(d), spec_sub(n1, n2));
                    }
                    Ok(EvalResult::Number(d.round9()))
                },
                None => {
                    proof {
                        crate::dec::lemma_opt_parts_inj(None::<Decimal>, spec_sub(n1, n2));
                    }
                    Err(EvalError::Overflow)
                },
            },
            BinaryOp::Multiply => match n1.checked_mul(&n2) {
                Some(d) => {
                    proof {
                        crate::dec::lemma_opt_parts_inj(Some(d), spec_mul(n1, n2));
                    }
                    Ok(EvalResult::Number(d.round9()))
                },
                None => {
                    proof {
                        crate::dec::lemma_opt_parts_inj(None::<Decimal>, spec_mul(n1, n2));
                    }
                    Err(EvalError::Overflow)
                },
            },
            BinaryOp::Divide => {
                if n2.is_zero() {
                    Err(EvalError::DivideByZero)
                } else {
                    match n1.checked_div(&n2) {
                        Some(d) => {
                            proof {
                                crate::dec::lemma_opt_parts_inj(Some(d), spec_div(n1, n2));
                            }
                            Ok(EvalResult::Number(d.round9()))
                        },
                        None => {
                            proof {
                                crate::dec::lemma_opt_parts_inj(None::<Decimal>, spec_div(n1, n2));
                            }
                            Err(EvalError::Overflow)
                        },
                    }
                }
            },
        },
        (EvalResult::Time(t1), EvalResult::Time(t2)) => match op {
            BinaryOp::Add => match t1.checked_add(&t2) {
                Some(t) => Ok(EvalResult::Time(t)),
                None => Err(EvalError::Overflow),
            },
            BinaryOp::Subtract => match t1.checked_sub(&t2) {
                Some(t) => Ok(EvalResult::Time(t)),
                None => Err(EvalError::Overflow),
            },
            BinaryOp::Divide => {
                if t2.signum() == 0 {
                    Err(EvalError::DivideByZero)
                } else {
                    match t1.div(&t2) {
                        Some(d) => Ok(EvalResult::Number(d.round9())),
                        None => Err(EvalError::Overflow),
                    }
                }
            },
            BinaryOp::Multiply => Err(EvalError::MultiplyTimes),
        },
        (EvalResult::Time(t), EvalResult::Number(n)) => match op {
            BinaryOp::Multiply => match t.mul_decimal(&n) {
                Some(t2) => Ok(EvalResult::Time(t2)),
                None => Err(EvalError::Overflow),
            },
            BinaryOp::Divide => {
                if n.is_zero() {
                    Err(EvalError::DivideByZero)
                } else {
                    proof {
                        crate::dec::lemma_value28_zero(n);
                    }
                    match t.div_decimal(&n) {
                        Some(t2) => Ok(EvalResult::Time(t2)),
                        None => Err(EvalError::Overflow),
                    }
                }
            },
            BinaryOp::Add => Err(EvalError::AddTimeAndNumber),
            BinaryOp::Subtract => Err(EvalError::SubtractTimeAndNumber),
        },
        (EvalResult::Number(n), EvalResult::Time(t)) => match op {
            BinaryOp::Multiply => match t.mul_decimal(&n) {
                Some(t2) => Ok(EvalResult::Time(t2)),
                None => Err(EvalError::Overflow),
            },
            BinaryOp::Add => Err(EvalError::AddTimeAndNumber),
            BinaryOp::Subtract => Err(EvalError::SubtractTimeAndNumber),
            BinaryOp::Divide => Err(EvalError::DivideNumberByTime),
        },
    }
}

/// Evaluates a parsed expression tree.
pub fn eval_expr(e: &Expr) -> (r: Result<EvalResult, EvalError>)
    requires
        expr_wf(*e),
    ensures
        eval_result_view(r) == spec_eval_expr(*e),
        r matches Ok(v) ==> value_wf(v),
    decreases *e,
{
    match e {
        Expr::Literal(lit) => match lit {
            Literal::Number(n) => Ok(EvalResult::Number(*n)),
            Literal::Time(t) => Ok(EvalResult::Time(*t)),
        },
        Expr::Unary(op_ref, inner) => {
            let UnaryOp::Negative = op_ref;
            match eval_expr(inner) {
                Ok(v) => match v {
                    EvalResult::Time(t) => Ok(EvalResult::Time(t.neg())),
                    EvalResult::Number(n) => Ok(EvalResult::Number(n.neg())),
                },
                Err(er) => Err(er),
            }
        },
        Expr::Binary(l, op, r) => {
            let v1 = match eval_expr(l) {
                Ok(v) => v,
                Err(er) => {
                    return Err(er);
                },
            };
            let v2 = match eval_expr(r) {
                Ok(v) => v,
                Err(er) => {
                    return Err(er);
                },
            };
            eval_binary(*op, v1, v2)
        },
    }
}

/// Evaluates expression text: lexes, parses, then evaluates.
pub fn eval(expression: &str) -> (r: Result<EvalResult, EvalError>)
    ensures
        eval_result_view(r) == spec_eval(expression@),
        r matches Ok(v) ==> value_wf(v),
{
    match parse_expression(expression) {
        Ok(e) => eval_expr(&e),
        Err(pe) => Err(EvalError::ParseError(pe)),
    }
}

} // verus!
