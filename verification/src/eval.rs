//! The value of an expression tree, and of a text.

use vstd::pervasive::unreached;
use vstd::prelude::*;
use crate::grammar::expression;
use crate::lexer::{literals_fit, token_stream, Lexer, Token};
use crate::parser::{Expr, ParseFailure, Parser, Precedence};

verus! {

/// Whether `v` can be held in an `i64`.
pub open spec fn fits(v: int) -> bool {
    i64::MIN <= v <= i64::MAX
}

/// The quotient of `a` by `b`, rounded towards zero. Zero where `b` is zero.
pub open spec fn truncated_quotient(a: int, b: int) -> int {
    if b == 0 {
        0
    } else if a >= 0 {
        if b > 0 {
            a / b
        } else {
            -(a / (-b))
        }
    } else {
        if b > 0 {
            -((-a) / b)
        } else {
            (-a) / (-b)
        }
    }
}

/// What the binary operator `operator` makes of `l` and `r`. Zero where
/// `operator` is no binary operator.
pub open spec fn apply(operator: Token, l: int, r: int) -> int {
    match operator {
        Token::Plus => l + r,
        Token::Minus => l - r,
        Token::Asterisk => l * r,
        Token::Slash => truncated_quotient(l, r),
        _ => 0,
    }
}

impl Expr {
    /// The number that the tree denotes, over the integers without bound.
    pub open spec fn value(self) -> int
        decreases self,
    {
        match self {
            Expr::Number(n) => n as int,
            Expr::PrefixExpr { operator, right } => -right.value(),
            Expr::InfixExpr { left, operator, right } => apply(
                operator,
                left.value(),
                right.value(),
            ),
        }
    }

    /// Why the tree cannot be evaluated, if it cannot: the first thing to go
    /// wrong when each node's operands are evaluated before the node itself,
    /// the left one first. A division by zero goes wrong as such; any other
    /// node goes wrong when its own value does not fit in an `i64`.
    pub open spec fn failure(self) -> Option<ParseFailure>
        decreases self,
    {
        match self {
            Expr::Number(_) => None,
            Expr::PrefixExpr { operator, right } => {
                if right.failure() is Some {
                    right.failure()
                } else if !fits(self.value()) {
                    Some(ParseFailure::Overflow)
                } else {
                    None
                }
            },
            Expr::InfixExpr { left, operator, right } => {
                if left.failure() is Some {
                    left.failure()
                } else if right.failure() is Some {
                    right.failure()
                } else if operator == Token::Slash && right.value() == 0 {
                    Some(ParseFailure::DivisionByZero)
                } else if !fits(self.value()) {
                    Some(ParseFailure::Overflow)
                } else {
                    None
                }
            },
        }
    }

    /// What evaluating the tree gives: its value, or why it has none that
    /// can be computed.
    pub open spec fn evaluated(self) -> Result<i64, ParseFailure> {
        match self.failure() {
            Some(f) => Err(f),
            None => Ok(self.value() as i64),
        }
    }
}

/// What evaluating the text of an expression gives: the value of the tree
/// that its tokens make, or the first thing that stands in the way. A number
/// too large to be written down as an `i64` comes first, then what the
/// parser finds, then what goes wrong in the arithmetic.
pub open spec fn evaluation(text: Seq<char>) -> Result<i64, ParseFailure> {
    if !literals_fit(text) {
        Err(ParseFailure::NumberTooLarge)
    } else {
        match expression(token_stream(text, 0), Precedence::Lowest).result {
            Ok(e) => e.evaluated(),
            Err(f) => Err(f),
        }
    }
}

/// Evaluates a tree: operands before their node, the left one first.
/// Division rounds towards zero. Division by zero and results that do not
/// fit in an `i64` end the evaluation with a failure.
pub fn eval(expr: &Expr) -> (result: Result<i64, ParseFailure>)
    requires
        expr.well_formed(),
    ensures
        result == expr.evaluated(),
        result matches Ok(v) ==> v == expr.value(),
        result matches Err(f) ==> f == ParseFailure::DivisionByZero || f == ParseFailure::Overflow,
    decreases expr,
{
    match expr {
        Expr::Number(x) => Ok(*x),
        Expr::PrefixExpr { operator: _, right } => {
            let r = match eval(right) {
                Ok(v) => v,
                Err(f) => {
                    return Err(f);
                },
            };
            match 0i64.checked_sub(r) {
                Some(v) => Ok(v),
                None => Err(ParseFailure::Overflow),
            }
        },
        Expr::InfixExpr { left, operator, right } => {
            let l = match eval(left) {
                Ok(v) => v,
                Err(f) => {
                    return Err(f);
                },
            };
            let r = match eval(right) {
                Ok(v) => v,
                Err(f) => {
                    return Err(f);
                },
            };
            let combined = match operator {
                Token::Plus => l.checked_add(r),
                Token::Minus => l.checked_sub(r),
                Token::Asterisk => l.checked_mul(r),
                Token::Slash => {
                    if r == 0 {
                        return Err(ParseFailure::DivisionByZero);
                    }
                    l.checked_div(r)
                },
                _ => unreached(),
            };
            match combined {
                Some(v) => Ok(v),
                None => Err(ParseFailure::Overflow),
            }
        },
    }
}

/// Evaluates the text of an expression: cuts it into tokens, builds the
/// tree, and evaluates the tree.
pub fn evaluate_expression(source: Vec<char>) -> (result: Result<i64, ParseFailure>)
    ensures
        result == evaluation(source@),
{
    if !Lexer::accepts(&source) {
        return Err(ParseFailure::NumberTooLarge);
    }
    let lexer = Lexer::new(source);
    let mut parser = Parser::new(lexer);
    match parser.parse_expression(Precedence::Lowest) {
        Ok(e) => eval(&e),
        Err(f) => Err(f),
    }
}

} // verus!
