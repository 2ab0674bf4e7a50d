//! The grammar of arithmetic expressions, as functions on sequences of tokens.
//!
//! An expression is a prefix term (a number, a negation, or an expression in
//! parentheses) followed by any number of binary operators with their right
//! operands. Operators of higher precedence bind first, and operators of the
//! same precedence group to the left.
//!
//! Each function reads from the front of a sequence whose first token is the
//! one under consideration and whose second token is the lookahead. Its
//! [`Outcome`] holds the tree or the failure, and how many tokens have been
//! left behind. After a success the last token of what was read is the first
//! of what is left: reading `1 + 2` leaves two tokens behind and rests on `2`.

use vstd::prelude::*;
use crate::lexer::{Token, rest};
use crate::parser::{Expr, ParseFailure, Precedence};

verus! {

/// How an attempt to read something from a sequence of tokens ends.
pub struct Outcome {
    /// The tree that was built, or why none could be.
    pub result: Result<Box<Expr>, ParseFailure>,
    /// How many tokens the attempt has left behind.
    pub advanced: nat,
}

impl Outcome {
    /// The same end, reached after `n` more tokens had been left behind.
    pub open spec fn after(self, n: nat) -> Outcome {
        Outcome { result: self.result, advanced: self.advanced + n }
    }
}

/// The attempt that ends at once with the tree `e`.
pub open spec fn done(e: Box<Expr>) -> Outcome {
    Outcome { result: Ok(e), advanced: 0 }
}

/// The attempt that ends at once with the failure `f`.
pub open spec fn failed(f: ParseFailure) -> Outcome {
    Outcome { result: Err(f), advanced: 0 }
}

/// How strongly `t` binds as a binary operator. A token that is no binary
/// operator binds least of all.
pub open spec fn precedence_of(t: Token) -> Precedence {
    match t {
        Token::Plus | Token::Minus => Precedence::Sum,
        Token::Asterisk | Token::Slash => Precedence::Product,
        _ => Precedence::Lowest,
    }
}

/// Whether `t` is one of the four binary operators.
pub open spec fn is_binary_operator(t: Token) -> bool {
    t == Token::Plus || t == Token::Minus || t == Token::Asterisk || t == Token::Slash
}

/// Whether `a` and `b` are tokens of one kind: two numbers, whatever their
/// values, or the same symbol.
pub open spec fn same_kind(a: Token, b: Token) -> bool {
    (a is Number && b is Number) || a == b
}

/// A number: the first token, if it is one.
pub open spec fn number(ts: Seq<Token>) -> Outcome {
    if ts.len() == 0 {
        failed(ParseFailure::EmptyInput)
    } else {
        match ts[0] {
            Token::Number(n) => done(Box::new(Expr::Number(n))),
            _ => failed(ParseFailure::UnexpectedToken),
        }
    }
}

/// A prefix term: a number, a negation or an expression in parentheses,
/// chosen by the first token. Any other token cannot begin a term, and
/// neither can the end of the tokens.
pub open spec fn prefix_term(ts: Seq<Token>) -> Outcome
    decreases ts.len(), 2nat,
{
    if ts.len() == 0 {
        failed(ParseFailure::EmptyInput)
    } else {
        match ts[0] {
            Token::Minus => negation(ts),
            Token::Number(_) => number(ts),
            Token::Lparen => group(ts),
            _ => failed(ParseFailure::UnexpectedToken),
        }
    }
}

/// A negation: behind the first token, an operand that binds as tightly as
/// a prefix does.
pub open spec fn negation(ts: Seq<Token>) -> Outcome
    decreases ts.len(), 1nat,
{
    if ts.len() == 0 {
        failed(ParseFailure::EmptyInput)
    } else {
        let operand = expression(rest(ts, 1), Precedence::Prefix);
        match operand.result {
            Ok(e) => Outcome {
                result: Ok(Box::new(Expr::PrefixExpr { operator: Token::Minus, right: e })),
                advanced: operand.advanced + 1,
            },
            Err(_) => operand.after(1),
        }
    }
}

/// An expression in parentheses: behind the first token, a whole expression,
/// and behind that a closing parenthesis, which becomes the first token.
pub open spec fn group(ts: Seq<Token>) -> Outcome
    decreases ts.len(), 1nat,
{
    if ts.len() == 0 {
        failed(ParseFailure::EmptyInput)
    } else {
        let inner = expression(rest(ts, 1), Precedence::Lowest);
        let seen = rest(ts, inner.advanced + 1);
        match inner.result {
            Ok(_) => if seen.len() > 1 && seen[1] == Token::Rparen {
                inner.after(2)
            } else {
                failed(ParseFailure::UnmatchedParenthesis).after(inner.advanced + 1)
            },
            Err(_) => inner.after(1),
        }
    }
}

/// An expression whose binary operators all bind more tightly than `min`: a
/// prefix term, extended to the right as far as such operators follow.
pub open spec fn expression(ts: Seq<Token>, min: Precedence) -> Outcome
    decreases ts.len(), 3nat,
{
    let first = prefix_term(ts);
    match first.result {
        Ok(left) => climb(rest(ts, first.advanced), min, left).after(first.advanced),
        Err(_) => first,
    }
}

/// The extension of `left`, which ends at the first token, to the right:
/// while the lookahead is an operator that binds more tightly than `min`,
/// the operator and its right operand are joined to what has been read.
pub open spec fn climb(ts: Seq<Token>, min: Precedence, left: Box<Expr>) -> Outcome
    decreases ts.len(), 2nat,
{
    if ts.len() > 1 && min.level() < precedence_of(ts[1]).level() {
        let step = infix(rest(ts, 1), left);
        match step.result {
            Ok(joined) => climb(rest(rest(ts, 1), step.advanced), min, joined).after(
                step.advanced + 1,
            ),
            Err(_) => step.after(1),
        }
    } else {
        done(left)
    }
}

/// `left` joined to what follows the first token, if that token is a binary
/// operator; `left` as it is, if it is another token.
pub open spec fn infix(ts: Seq<Token>, left: Box<Expr>) -> Outcome
    decreases ts.len(), 1nat,
{
    if ts.len() == 0 {
        failed(ParseFailure::EmptyInput)
    } else if is_binary_operator(ts[0]) {
        infix_expression(ts, left)
    } else {
        done(left)
    }
}

/// The binary node of `left`, the first token as the operator, and a right
/// operand read from behind it, whose own operators bind more tightly than
/// that operator. An operand of the same precedence is thus left for the
/// caller, which makes the operators group to the left.
pub open spec fn infix_expression(ts: Seq<Token>, left: Box<Expr>) -> Outcome
    decreases ts.len(), 0nat,
{
    if ts.len() == 0 {
        failed(ParseFailure::EmptyInput)
    } else {
        let right = expression(rest(ts, 1), precedence_of(ts[0]));
        match right.result {
            Ok(r) => Outcome {
                result: Ok(Box::new(Expr::InfixExpr { left, operator: ts[0], right: r })),
                advanced: right.advanced + 1,
            },
            Err(_) => right.after(1),
        }
    }
}

/// A prefix term that was read is a well-formed tree.
pub proof fn lemma_prefix_term_well_formed(ts: Seq<Token>)
    ensures
        prefix_term(ts).result matches Ok(e) ==> e.well_formed(),
    decreases ts.len(), 2nat,
{
    if ts.len() > 0 {
        match ts[0] {
            Token::Minus => lemma_negation_well_formed(ts),
            Token::Lparen => lemma_group_well_formed(ts),
            _ => {},
        }
    }
}

/// A negation that was read is a well-formed tree.
pub proof fn lemma_negation_well_formed(ts: Seq<Token>)
    ensures
        negation(ts).result matches Ok(e) ==> e.well_formed(),
    decreases ts.len(), 1nat,
{
    if ts.len() > 0 {
        lemma_expression_well_formed(rest(ts, 1), Precedence::Prefix);
    }
}

/// An expression in parentheses that was read is a well-formed tree.
pub proof fn lemma_group_well_formed(ts: Seq<Token>)
    ensures
        group(ts).result matches Ok(e) ==> e.well_formed(),
    decreases ts.len(), 1nat,
{
    if ts.len() > 0 {
        lemma_expression_well_formed(rest(ts, 1), Precedence::Lowest);
    }
}

/// An expression that was read is a well-formed tree.
pub proof fn lemma_expression_well_formed(ts: Seq<Token>, min: Precedence)
    ensures
        expression(ts, min).result matches Ok(e) ==> e.well_formed(),
    decreases ts.len(), 3nat,
{
    lemma_prefix_term_well_formed(ts);
    let first = prefix_term(ts);
    if let Ok(left) = first.result {
        lemma_climb_well_formed(rest(ts, first.advanced), min, left);
    }
}

/// The extension of a well-formed tree is a well-formed tree.
pub proof fn lemma_climb_well_formed(ts: Seq<Token>, min: Precedence, left: Box<Expr>)
    requires
        left.well_formed(),
    ensures
        climb(ts, min, left).result matches Ok(e) ==> e.well_formed(),
    decreases ts.len(), 2nat,
{
    if ts.len() > 1 && min.level() < precedence_of(ts[1]).level() {
        lemma_infix_well_formed(rest(ts, 1), left);
        let step = infix(rest(ts, 1), left);
        if let Ok(joined) = step.result {
            lemma_climb_well_formed(rest(rest(ts, 1), step.advanced), min, joined);
        }
    }
}

/// A well-formed tree joined to what follows an operator is a well-formed
/// tree.
pub proof fn lemma_infix_well_formed(ts: Seq<Token>, left: Box<Expr>)
    requires
        left.well_formed(),
    ensures
        infix(ts, left).result matches Ok(e) ==> e.well_formed(),
    decreases ts.len(), 1nat,
{
    if ts.len() > 0 && is_binary_operator(ts[0]) {
        lemma_infix_expression_well_formed(ts, left);
    }
}

/// The binary node of a well-formed tree, a binary operator and an operand
/// that was read is a well-formed tree.
pub proof fn lemma_infix_expression_well_formed(ts: Seq<Token>, left: Box<Expr>)
    ensures
        left.well_formed() && ts.len() > 0 && is_binary_operator(ts[0]) ==> (infix_expression(
            ts,
            left,
        ).result matches Ok(e) ==> e.well_formed()),
    decreases ts.len(), 0nat,
{
    if ts.len() > 0 {
        lemma_expression_well_formed(rest(ts, 1), precedence_of(ts[0]));
    }
}

/// A number that no tighter operator follows is an expression by itself.
pub proof fn lemma_number_alone(ts: Seq<Token>, min: Precedence)
    requires
        ts.len() > 0,
        ts[0] is Number,
        ts.len() > 1 ==> precedence_of(ts[1]).level() <= min.level(),
    ensures
        expression(ts, min) == done(Box::new(Expr::Number(ts[0]->Number_0))),
{
    assert(rest(ts, 0) =~= ts);
}

/// An operator followed by a number, which no tighter operator follows,
/// joins that number to what stands on its left.
pub proof fn lemma_join_number(ts: Seq<Token>, left: Box<Expr>)
    requires
        ts.len() > 1,
        is_binary_operator(ts[0]),
        ts[1] is Number,
        ts.len() > 2 ==> precedence_of(ts[2]).level() <= precedence_of(ts[0]).level(),
    ensures
        infix(ts, left) == (Outcome {
            result: Ok(
                Box::new(
                    Expr::InfixExpr {
                        left,
                        operator: ts[0],
                        right: Box::new(Expr::Number(ts[1]->Number_0)),
                    },
                ),
            ),
            advanced: 1,
        }),
{
    lemma_number_alone(rest(ts, 1), precedence_of(ts[0]));
}

/// Grouping to the left: in `a op1 b op2 c`, where `op2` does not bind more
/// tightly than `op1`, the operands of `op2` are `a op1 b` and `c`. So it is
/// for two operators of one precedence.
pub proof fn lemma_groups_to_the_left(a: i64, op1: Token, b: i64, op2: Token, c: i64)
    requires
        is_binary_operator(op1),
        is_binary_operator(op2),
        precedence_of(op2).level() <= precedence_of(op1).level(),
    ensures
        expression(
            seq![Token::Number(a), op1, Token::Number(b), op2, Token::Number(c)],
            Precedence::Lowest,
        ) == (Outcome {
            result: Ok(
                Box::new(
                    Expr::InfixExpr {
                        left: Box::new(
                            Expr::InfixExpr {
                                left: Box::new(Expr::Number(a)),
                                operator: op1,
                                right: Box::new(Expr::Number(b)),
                            },
                        ),
                        operator: op2,
                        right: Box::new(Expr::Number(c)),
                    },
                ),
            ),
            advanced: 4,
        }),
{
    let ts = seq![Token::Number(a), op1, Token::Number(b), op2, Token::Number(c)];
    let first = Box::new(Expr::Number(a));
    let inner = Box::new(
        Expr::InfixExpr { left: first, operator: op1, right: Box::new(Expr::Number(b)) },
    );
    let whole = Box::new(
        Expr::InfixExpr { left: inner, operator: op2, right: Box::new(Expr::Number(c)) },
    );
    let from_op1 = seq![op1, Token::Number(b), op2, Token::Number(c)];
    let from_b = seq![Token::Number(b), op2, Token::Number(c)];
    let from_op2 = seq![op2, Token::Number(c)];
    let from_c = seq![Token::Number(c)];
    assert(rest(ts, 0) =~= ts);
    assert(rest(ts, 1) =~= from_op1);
    assert(rest(from_op1, 1) =~= from_b);
    assert(rest(from_b, 1) =~= from_op2);
    assert(rest(from_op2, 1) =~= from_c);
    lemma_join_number(from_op1, first);
    lemma_join_number(from_op2, inner);
    assert(climb(from_c, Precedence::Lowest, whole) == done(whole));
    assert(climb(from_b, Precedence::Lowest, inner) == done(whole).after(2));
    assert(climb(ts, Precedence::Lowest, first) == done(whole).after(4));
}

/// Precedence: in `a op1 b op2 c`, where `op2` binds more tightly than
/// `op1`, the operands of `op1` are `a` and `b op2 c`.
pub proof fn lemma_tighter_operator_binds_first(a: i64, op1: Token, b: i64, op2: Token, c: i64)
    requires
        is_binary_operator(op1),
        is_binary_operator(op2),
        precedence_of(op1).level() < precedence_of(op2).level(),
    ensures
        expression(
            seq![Token::Number(a), op1, Token::Number(b), op2, Token::Number(c)],
            Precedence::Lowest,
        ) == (Outcome {
            result: Ok(
                Box::new(
                    Expr::InfixExpr {
                        left: Box::new(Expr::Number(a)),
                        operator: op1,
                        right: Box::new(
                            Expr::InfixExpr {
                                left: Box::new(Expr::Number(b)),
                                operator: op2,
                                right: Box::new(Expr::Number(c)),
                            },
                        ),
                    },
                ),
            ),
            advanced: 4,
        }),
{
    let ts = seq![Token::Number(a), op1, Token::Number(b), op2, Token::Number(c)];
    let first = Box::new(Expr::Number(a));
    let second = Box::new(Expr::Number(b));
    let inner = Box::new(
        Expr::InfixExpr { left: second, operator: op2, right: Box::new(Expr::Number(c)) },
    );
    let whole = Box::new(Expr::InfixExpr { left: first, operator: op1, right: inner });
    let from_op1 = seq![op1, Token::Number(b), op2, Token::Number(c)];
    let from_b = seq![Token::Number(b), op2, Token::Number(c)];
    let from_op2 = seq![op2, Token::Number(c)];
    let from_c = seq![Token::Number(c)];
    assert(rest(ts, 0) =~= ts);
    assert(rest(ts, 1) =~= from_op1);
    assert(rest(from_op1, 1) =~= from_b);
    assert(rest(from_op1, 3) =~= from_c);
    assert(rest(from_b, 0) =~= from_b);
    assert(rest(from_b, 1) =~= from_op2);
    assert(rest(from_op2, 1) =~= from_c);
    lemma_join_number(from_op2, second);
    assert(climb(from_c, precedence_of(op1), inner) == done(inner));
    assert(climb(from_b, precedence_of(op1), second) == done(inner).after(2));
    assert(prefix_term(from_b) == done(second));
    assert(expression(from_b, precedence_of(op1)) == done(inner).after(2));
    assert(infix(from_op1, first) == done(whole).after(3));
    assert(climb(from_c, Precedence::Lowest, whole) == done(whole));
    assert(climb(ts, Precedence::Lowest, first) == done(whole).after(4));
}

/// Parentheses: in `( a op1 b ) op2 c` the operands of `op2` are `a op1 b`
/// and `c`, however tightly the two operators bind.
pub proof fn lemma_parentheses_bind_first(a: i64, op1: Token, b: i64, op2: Token, c: i64)
    requires
        is_binary_operator(op1),
        is_binary_operator(op2),
    ensures
        expression(
            seq![
                Token::Lparen,
                Token::Number(a),
                op1,
                Token::Number(b),
                Token::Rparen,
                op2,
                Token::Number(c),
            ],
            Precedence::Lowest,
        ) == (Outcome {
            result: Ok(
                Box::new(
                    Expr::InfixExpr {
                        left: Box::new(
                            Expr::InfixExpr {
                                left: Box::new(Expr::Number(a)),
                                operator: op1,
                                right: Box::new(Expr::Number(b)),
                            },
                        ),
                        operator: op2,
                        right: Box::new(Expr::Number(c)),
                    },
                ),
            ),
            advanced: 6,
        }),
{
    let ts = seq![
        Token::Lparen,
        Token::Number(a),
        op1,
        Token::Number(b),
        Token::Rparen,
        op2,
        Token::Number(c),
    ];
    let first = Box::new(Expr::Number(a));
    let inner = Box::new(
        Expr::InfixExpr { left: first, operator: op1, right: Box::new(Expr::Number(b)) },
    );
    let whole = Box::new(
        Expr::InfixExpr { left: inner, operator: op2, right: Box::new(Expr::Number(c)) },
    );
    let from_a = seq![Token::Number(a), op1, Token::Number(b), Token::Rparen, op2, Token::Number(c)];
    let from_op1 = seq![op1, Token::Number(b), Token::Rparen, op2, Token::Number(c)];
    let from_b = seq![Token::Number(b), Token::Rparen, op2, Token::Number(c)];
    let from_close = seq![Token::Rparen, op2, Token::Number(c)];
    let from_op2 = seq![op2, Token::Number(c)];
    let from_c = seq![Token::Number(c)];
    assert(rest(ts, 1) =~= from_a);
    assert(rest(ts, 3) =~= from_b);
    assert(rest(ts, 4) =~= from_close);
    assert(rest(from_a, 0) =~= from_a);
    assert(rest(from_a, 1) =~= from_op1);
    assert(rest(from_op1, 1) =~= from_b);
    assert(rest(from_close, 1) =~= from_op2);
    assert(rest(from_op2, 1) =~= from_c);
    lemma_join_number(from_op1, first);
    assert(climb(from_b, Precedence::Lowest, inner) == done(inner));
    assert(climb(from_a, Precedence::Lowest, first) == done(inner).after(2));
    assert(expression(from_a, Precedence::Lowest) == done(inner).after(2));
    assert(group(ts) == done(inner).after(4));
    assert(prefix_term(ts) == done(inner).after(4));
    lemma_join_number(from_op2, inner);
    assert(climb(from_c, Precedence::Lowest, whole) == done(whole));
    assert(climb(from_close, Precedence::Lowest, inner) == done(whole).after(2));
}

/// A minus sign in front binds more tightly than any binary operator: in
/// `- a op b` the operands of `op` are `- a` and `b`.
pub proof fn lemma_negation_binds_tightest(a: i64, op: Token, b: i64)
    requires
        is_binary_operator(op),
    ensures
        expression(
            seq![Token::Minus, Token::Number(a), op, Token::Number(b)],
            Precedence::Lowest,
        ) == (Outcome {
            result: Ok(
                Box::new(
                    Expr::InfixExpr {
                        left: Box::new(
                            Expr::PrefixExpr {
                                operator: Token::Minus,
                                right: Box::new(Expr::Number(a)),
                            },
                        ),
                        operator: op,
                        right: Box::new(Expr::Number(b)),
                    },
                ),
            ),
            advanced: 3,
        }),
{
    let ts = seq![Token::Minus, Token::Number(a), op, Token::Number(b)];
    let negated = Box::new(
        Expr::PrefixExpr { operator: Token::Minus, right: Box::new(Expr::Number(a)) },
    );
    let whole = Box::new(
        Expr::InfixExpr { left: negated, operator: op, right: Box::new(Expr::Number(b)) },
    );
    let from_a = seq![Token::Number(a), op, Token::Number(b)];
    let from_op = seq![op, Token::Number(b)];
    let from_b = seq![Token::Number(b)];
    assert(rest(ts, 1) =~= from_a);
    assert(rest(from_a, 1) =~= from_op);
    assert(rest(from_op, 1) =~= from_b);
    lemma_number_alone(from_a, Precedence::Prefix);
    assert(negation(ts) == done(negated).after(1));
    assert(prefix_term(ts) == done(negated).after(1));
    lemma_join_number(from_op, negated);
    assert(climb(from_b, Precedence::Lowest, whole) == done(whole));
    assert(climb(from_a, Precedence::Lowest, negated) == done(whole).after(2));
}

/// Whether `t` is an opening or a closing parenthesis.
pub open spec fn is_parenthesis(t: Token) -> bool {
    t == Token::Lparen || t == Token::Rparen
}

/// The test that every token but a parenthesis passes.
pub open spec fn no_parenthesis() -> spec_fn(Token) -> bool {
    |t: Token| !is_parenthesis(t)
}

/// The tokens of `ts` that are no parentheses, in their order.
pub open spec fn without_parentheses(ts: Seq<Token>) -> Seq<Token> {
    ts.filter(no_parenthesis())
}

/// Parentheses are left out of each part of a sequence as they are left out
/// of the whole.
pub proof fn lemma_without_parentheses_of_parts(a: Seq<Token>, b: Seq<Token>)
    ensures
        without_parentheses(a + b) == without_parentheses(a) + without_parentheses(b),
{
    Seq::filter_distributes_over_add(a, b, no_parenthesis());
}

/// A single token is left out if it is a parenthesis, and stays otherwise.
pub proof fn lemma_without_parentheses_of_one(t: Token)
    ensures
        without_parentheses(seq![t]) == if is_parenthesis(t) {
            Seq::<Token>::empty()
        } else {
            seq![t]
        },
{
    reveal_with_fuel(Seq::filter, 2);
    assert(seq![t].drop_last() =~= Seq::<Token>::empty());
    assert(Seq::<Token>::empty().push(t) =~= seq![t]);
}

/// A number that was read is the first token, and the reading stays there.
pub proof fn lemma_number_yield(ts: Seq<Token>)
    ensures
        number(ts).result matches Ok(e) ==> number(ts).advanced < ts.len() && e.tokens()
            == without_parentheses(ts.take(number(ts).advanced as int + 1)),
{
    if ts.len() > 0 {
        lemma_without_parentheses_of_one(ts[0]);
        assert(ts.take(1) =~= seq![ts[0]]);
    }
}

/// A prefix term that was read holds the tokens that were read for it, in
/// their order and without the parentheses, and the reading rests on the
/// last of them.
pub proof fn lemma_prefix_term_yield(ts: Seq<Token>)
    ensures
        prefix_term(ts).result matches Ok(e) ==> prefix_term(ts).advanced < ts.len() && e.tokens()
            == without_parentheses(ts.take(prefix_term(ts).advanced as int + 1)),
    decreases ts.len(), 2nat,
{
    if ts.len() > 0 {
        match ts[0] {
            Token::Minus => lemma_negation_yield(ts),
            Token::Lparen => lemma_group_yield(ts),
            Token::Number(_) => lemma_number_yield(ts),
            _ => {},
        }
    }
}

/// A negation that was read from behind a minus sign holds the tokens that
/// were read for it, and the reading rests on the last of them.
pub proof fn lemma_negation_yield(ts: Seq<Token>)
    requires
        ts.len() > 0,
        ts[0] == Token::Minus,
    ensures
        negation(ts).result matches Ok(e) ==> negation(ts).advanced < ts.len() && e.tokens()
            == without_parentheses(ts.take(negation(ts).advanced as int + 1)),
    decreases ts.len(), 1nat,
{
    let operand = expression(rest(ts, 1), Precedence::Prefix);
    lemma_expression_yield(rest(ts, 1), Precedence::Prefix);
    if operand.result is Ok {
        let read = rest(ts, 1).take(operand.advanced as int + 1);
        assert(ts.take(operand.advanced as int + 2) =~= seq![ts[0]] + read);
        lemma_without_parentheses_of_parts(seq![ts[0]], read);
        lemma_without_parentheses_of_one(ts[0]);
    }
}

/// An expression in parentheses that was read from behind an opening
/// parenthesis holds the tokens between that and the closing one, on which
/// the reading rests.
pub proof fn lemma_group_yield(ts: Seq<Token>)
    requires
        ts.len() > 0,
        ts[0] == Token::Lparen,
    ensures
        group(ts).result matches Ok(e) ==> group(ts).advanced < ts.len() && e.tokens()
            == without_parentheses(ts.take(group(ts).advanced as int + 1)),
    decreases ts.len(), 1nat,
{
    let inner = expression(rest(ts, 1), Precedence::Lowest);
    lemma_expression_yield(rest(ts, 1), Precedence::Lowest);
    if group(ts).result is Ok {
        let read = rest(ts, 1).take(inner.advanced as int + 1);
        let seen = rest(ts, inner.advanced + 1);
        assert(seen[1] == ts[inner.advanced as int + 2]);
        assert(ts.take(inner.advanced as int + 3) =~= seq![ts[0]] + read + seq![seen[1]]);
        lemma_without_parentheses_of_parts(seq![ts[0]] + read, seq![seen[1]]);
        lemma_without_parentheses_of_parts(seq![ts[0]], read);
        lemma_without_parentheses_of_one(ts[0]);
        lemma_without_parentheses_of_one(seen[1]);
        assert(Seq::<Token>::empty() + without_parentheses(read) + Seq::<Token>::empty()
            =~= without_parentheses(read));
    }
}

/// An expression that was read holds the tokens that were read for it, in
/// their order and without the parentheses: the parser neither adds a token
/// nor leaves one out nor moves one. The reading rests on the last of them.
pub proof fn lemma_expression_yield(ts: Seq<Token>, min: Precedence)
    ensures
        expression(ts, min).result matches Ok(e) ==> expression(ts, min).advanced < ts.len()
            && e.tokens() == without_parentheses(ts.take(expression(ts, min).advanced as int + 1)),
    decreases ts.len(), 3nat,
{
    let first = prefix_term(ts);
    lemma_prefix_term_yield(ts);
    if let Ok(left) = first.result {
        let from = rest(ts, first.advanced);
        let more = climb(from, min, left);
        lemma_climb_yield(from, min, left);
        if more.result is Ok {
            assert(ts.take(first.advanced as int + more.advanced as int + 1) =~= ts.take(first.advanced as int + 1)
                + from.subrange(1, more.advanced as int + 1));
            lemma_without_parentheses_of_parts(
                ts.take(first.advanced as int + 1),
                from.subrange(1, more.advanced as int + 1),
            );
        }
    }
}

/// The extension of a tree holds the tokens of the tree and then those that
/// were read behind the first token, and the reading rests on the last of
/// them.
pub proof fn lemma_climb_yield(ts: Seq<Token>, min: Precedence, left: Box<Expr>)
    requires
        ts.len() > 0,
    ensures
        climb(ts, min, left).result matches Ok(e) ==> climb(ts, min, left).advanced < ts.len()
            && e.tokens() == left.tokens() + without_parentheses(
            ts.subrange(1, climb(ts, min, left).advanced as int + 1),
        ),
    decreases ts.len(), 2nat,
{
    if ts.len() > 1 && min.level() < precedence_of(ts[1]).level() {
        let step = infix(rest(ts, 1), left);
        lemma_infix_yield(rest(ts, 1), left);
        if let Ok(joined) = step.result {
            let from = rest(rest(ts, 1), step.advanced);
            let more = climb(from, min, joined);
            lemma_climb_yield(from, min, joined);
            if more.result is Ok {
                let one = rest(ts, 1).take(step.advanced as int + 1);
                let two = from.subrange(1, more.advanced as int + 1);
                assert(ts.subrange(1, step.advanced as int + more.advanced as int + 2) =~= one + two);
                lemma_without_parentheses_of_parts(one, two);
                assert(left.tokens() + without_parentheses(one) + without_parentheses(two)
                    =~= left.tokens() + (without_parentheses(one) + without_parentheses(two)));
            }
        }
    } else {
        reveal_with_fuel(Seq::filter, 1);
        assert(ts.subrange(1, 1) =~= Seq::<Token>::empty());
        assert(left.tokens() + Seq::<Token>::empty() =~= left.tokens());
    }
}

/// A tree joined to what follows a binary operator holds the tokens of the
/// tree, then the operator and the tokens that were read behind it.
pub proof fn lemma_infix_yield(ts: Seq<Token>, left: Box<Expr>)
    requires
        ts.len() > 0,
        is_binary_operator(ts[0]),
    ensures
        infix(ts, left).result matches Ok(e) ==> infix(ts, left).advanced < ts.len() && e.tokens()
            == left.tokens() + without_parentheses(ts.take(infix(ts, left).advanced as int + 1)),
    decreases ts.len(), 1nat,
{
    lemma_infix_expression_yield(ts, left);
}

/// The binary node built at a binary operator holds the tokens of its left
/// operand, then the operator and the tokens that were read behind it.
pub proof fn lemma_infix_expression_yield(ts: Seq<Token>, left: Box<Expr>)
    requires
        ts.len() > 0,
        is_binary_operator(ts[0]),
    ensures
        infix_expression(ts, left).result matches Ok(e) ==> infix_expression(ts, left).advanced
            < ts.len() && e.tokens() == left.tokens() + without_parentheses(
            ts.take(infix_expression(ts, left).advanced as int + 1),
        ),
    decreases ts.len(), 0nat,
{
    let right = expression(rest(ts, 1), precedence_of(ts[0]));
    lemma_expression_yield(rest(ts, 1), precedence_of(ts[0]));
    if let Ok(r) = right.result {
        let read = rest(ts, 1).take(right.advanced as int + 1);
        assert(ts.take(right.advanced as int + 2) =~= seq![ts[0]] + read);
        lemma_without_parentheses_of_parts(seq![ts[0]], read);
        lemma_without_parentheses_of_one(ts[0]);
        assert(left.tokens() + seq![ts[0]] + r.tokens() =~= left.tokens() + (seq![ts[0]]
            + r.tokens()));
    }
}

} // verus!
