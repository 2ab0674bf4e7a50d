//! Expression trees and the parser that builds them from tokens.

use vstd::prelude::*;
use crate::grammar::{
    climb, expression, group, infix, infix_expression, is_binary_operator,
    lemma_expression_well_formed, lemma_group_well_formed, lemma_infix_expression_well_formed,
    lemma_infix_well_formed, lemma_negation_well_formed, lemma_prefix_term_well_formed, negation,
    number, precedence_of, prefix_term, same_kind,
};
use crate::lexer::{lemma_rest_of_rest, rest, Lexer, Token};

verus! {

/// A node of an expression tree.
#[derive(Debug, PartialEq, Eq)]
pub enum Expr {
    /// A number as it was written.
    Number(i64),
    /// A negation. The operator is always [`Token::Minus`].
    PrefixExpr { operator: Token, right: Box<Expr> },
    /// Two operands joined by one of the four binary operators.
    InfixExpr { left: Box<Expr>, operator: Token, right: Box<Expr> },
}

impl Expr {
    /// Whether every negation in the tree has `-` as its operator and every
    /// binary node one of `+`, `-`, `*` and `/`.
    pub open spec fn well_formed(self) -> bool
        decreases self,
    {
        match self {
            Expr::Number(_) => true,
            Expr::PrefixExpr { operator, right } => operator == Token::Minus && right.well_formed(),
            Expr::InfixExpr { left, operator, right } => {
                &&& is_binary_operator(operator)
                &&& left.well_formed()
                &&& right.well_formed()
            },
        }
    }

    /// The tokens of the tree as they are written from left to right: the
    /// numbers and the operators, without any parentheses.
    pub open spec fn tokens(self) -> Seq<Token>
        decreases self,
    {
        match self {
            Expr::Number(n) => seq![Token::Number(n)],
            Expr::PrefixExpr { operator, right } => seq![operator] + right.tokens(),
            Expr::InfixExpr { left, operator, right } => left.tokens() + seq![operator]
                + right.tokens(),
        }
    }
}

/// Why an expression has no value.
#[derive(Debug, PartialEq, Eq, Clone, Copy, Structural)]
pub enum ParseFailure {
    /// The tokens ended where a term had to begin.
    EmptyInput,
    /// A term had to begin at a token that cannot begin one.
    UnexpectedToken,
    /// An expression in parentheses was not followed by `)`.
    UnmatchedParenthesis,
    /// The right operand of a division was zero.
    DivisionByZero,
    /// A number was written that does not fit in an `i64`.
    NumberTooLarge,
    /// A negation, sum, difference, product or quotient does not fit in an
    /// `i64`.
    Overflow,
}

/// How tightly an operator binds, from the loosest to the tightest.
#[derive(Debug, PartialEq, Eq, Clone, Copy, Structural)]
pub enum Precedence {
    /// Below every operator.
    Lowest,
    /// `+` and `-` between two operands.
    Sum,
    /// `*` and `/`.
    Product,
    /// `-` in front of one operand.
    Prefix,
}

impl Precedence {
    /// The place of this precedence in the order: the higher, the tighter.
    pub open spec fn level(self) -> nat {
        match self {
            Precedence::Lowest => 0,
            Precedence::Sum => 1,
            Precedence::Product => 2,
            Precedence::Prefix => 3,
        }
    }

    /// The place of this precedence in the order, as a number.
    pub fn rank(self) -> (n: u8)
        ensures
            n == self.level(),
    {
        match self {
            Precedence::Lowest => 0,
            Precedence::Sum => 1,
            Precedence::Product => 2,
            Precedence::Prefix => 3,
        }
    }
}

/// A sequence of no token or one.
pub open spec fn optional(t: Option<Token>) -> Seq<Token> {
    match t {
        Some(t) => seq![t],
        None => Seq::empty(),
    }
}

/// A parser over the tokens of a text. It looks two tokens ahead: at the
/// current token and at the one behind it.
#[derive(Debug)]
pub struct Parser {
    lexer: Lexer,
    curr: Option<Token>,
    peek: Option<Token>,
}

impl Parser {
    /// The tokens that the parser has in front of it: the current token, the
    /// one behind it, and those that the tokenizer has yet to produce.
    pub closed spec fn stream(&self) -> Seq<Token> {
        optional(self.curr) + optional(self.peek) + self.lexer.remaining()
    }

    /// The tokenizer is in order, and a token is looked at wherever one is
    /// left: none is missing in front of another.
    pub closed spec fn wf(&self) -> bool {
        &&& self.lexer.wf()
        &&& self.curr is None ==> self.peek is None
        &&& self.peek is None ==> self.lexer.remaining().len() == 0
    }

    /// The two tokens that the parser looks at are the first two of its
    /// stream.
    proof fn lemma_lookahead(&self)
        requires
            self.wf(),
        ensures
            self.curr == if self.stream().len() > 0 {
                Some(self.stream()[0])
            } else {
                None
            },
            self.peek == if self.stream().len() > 1 {
                Some(self.stream()[1])
            } else {
                None
            },
    {
    }

    /// A parser at the first token of what `lexer` has yet to produce.
    pub fn new(lexer: Lexer) -> (parser: Parser)
        requires
            lexer.wf(),
        ensures
            parser.wf(),
            parser.stream() == lexer.remaining(),
    {
        let mut lexer = lexer;
        let ghost tokens = lexer.remaining();
        let curr = lexer.tokenize();
        let peek = lexer.tokenize();
        let parser = Parser { lexer, curr, peek };
        assert(parser.stream() =~= tokens);
        parser
    }

    /// Moves on by one token: the token behind the current one becomes the
    /// current one. At the end of the tokens nothing changes.
    pub fn next(&mut self)
        requires
            old(self).wf(),
        ensures
            final(self).wf(),
            final(self).stream() == rest(old(self).stream(), 1),
    {
        self.curr = self.peek;
        self.peek = self.lexer.tokenize();
        assert(self.stream() =~= rest(old(self).stream(), 1));
    }

    /// Reads a whole expression from the current token on. The parser comes
    /// to rest on the last token of what it has read.
    pub fn parse(&mut self) -> (result: Option<Box<Expr>>)
        requires
            old(self).wf(),
        ensures
            final(self).wf(),
            result == match expression(old(self).stream(), Precedence::Lowest).result {
                Ok(e) => Some(e),
                Err(_) => None,
            },
            final(self).stream() == rest(
                old(self).stream(),
                expression(old(self).stream(), Precedence::Lowest).advanced,
            ),
            result matches Some(e) ==> e.well_formed(),
    {
        match self.parse_expression(Precedence::Lowest) {
            Ok(e) => Some(e),
            Err(_) => None,
        }
    }

    /// Reads a prefix term: a number, a negation, or an expression in
    /// parentheses, as the current token says.
    pub fn parse_prefix(&mut self) -> (result: Result<Box<Expr>, ParseFailure>)
        requires
            old(self).wf(),
        ensures
            final(self).wf(),
            result == prefix_term(old(self).stream()).result,
            final(self).stream() == rest(
                old(self).stream(),
                prefix_term(old(self).stream()).advanced,
            ),
            result matches Ok(e) ==> e.well_formed(),
        decreases old(self).stream().len(), 2nat,
    {
        proof {
            self.lemma_lookahead();
            lemma_prefix_term_well_formed(self.stream());
        }
        match self.curr {
            None => Err(ParseFailure::EmptyInput),
            Some(Token::Minus) => self.parse_minus(),
            Some(Token::Number(_)) => self.parse_number(),
            Some(Token::Lparen) => self.parse_grouped_expression(),
            Some(_) => Err(ParseFailure::UnexpectedToken),
        }
    }

    /// Reads an expression in parentheses, the current token being the
    /// opening one. The parser comes to rest on the closing parenthesis.
    pub fn parse_grouped_expression(&mut self) -> (result: Result<Box<Expr>, ParseFailure>)
        requires
            old(self).wf(),
        ensures
            final(self).wf(),
            result == group(old(self).stream()).result,
            final(self).stream() == rest(old(self).stream(), group(old(self).stream()).advanced),
            result matches Ok(e) ==> e.well_formed(),
        decreases old(self).stream().len(), 1nat,
    {
        proof {
            self.lemma_lookahead();
            lemma_group_well_formed(self.stream());
        }
        if self.curr.is_none() {
            return Err(ParseFailure::EmptyInput);
        }
        let ghost inner = expression(rest(self.stream(), 1), Precedence::Lowest);
        self.next();
        let expression = match self.parse_expression(Precedence::Lowest) {
            Ok(e) => e,
            Err(f) => {
                proof {
                    lemma_rest_of_rest(old(self).stream(), 1, inner.advanced);
                }
                return Err(f);
            },
        };
        proof {
            lemma_rest_of_rest(old(self).stream(), 1, inner.advanced);
        }
        if self.is_peek(&Token::Rparen) {
            self.next();
            proof {
                lemma_rest_of_rest(old(self).stream(), inner.advanced + 1, 1);
            }
            Ok(expression)
        } else {
            Err(ParseFailure::UnmatchedParenthesis)
        }
    }

    /// Reads a negation, the current token being the minus sign.
    pub fn parse_minus(&mut self) -> (result: Result<Box<Expr>, ParseFailure>)
        requires
            old(self).wf(),
        ensures
            final(self).wf(),
            result == negation(old(self).stream()).result,
            final(self).stream() == rest(
                old(self).stream(),
                negation(old(self).stream()).advanced,
            ),
            result matches Ok(e) ==> e.well_formed(),
        decreases old(self).stream().len(), 1nat,
    {
        proof {
            self.lemma_lookahead();
            lemma_negation_well_formed(self.stream());
        }
        if self.curr.is_none() {
            return Err(ParseFailure::EmptyInput);
        }
        let ghost operand = expression(rest(self.stream(), 1), Precedence::Prefix);
        self.next();
        let parsed = self.parse_expression(Precedence::Prefix);
        proof {
            lemma_rest_of_rest(old(self).stream(), 1, operand.advanced);
        }
        match parsed {
            Ok(num) => Ok(Box::new(Expr::PrefixExpr { operator: Token::Minus, right: num })),
            Err(f) => Err(f),
        }
    }

    /// Reads the current token as a number. The parser stays where it is.
    pub fn parse_number(&mut self) -> (result: Result<Box<Expr>, ParseFailure>)
        requires
            old(self).wf(),
        ensures
            final(self).wf(),
            result == number(old(self).stream()).result,
            final(self).stream() == old(self).stream(),
            result matches Ok(e) ==> e.well_formed(),
    {
        proof {
            self.lemma_lookahead();
        }
        match self.curr {
            Some(Token::Number(x)) => Ok(Box::new(Expr::Number(x))),
            Some(_) => Err(ParseFailure::UnexpectedToken),
            None => Err(ParseFailure::EmptyInput),
        }
    }

    /// Reads an expression whose binary operators all bind more tightly than
    /// `precedence`, from the current token on. The parser comes to rest on
    /// the last token of what it has read.
    pub fn parse_expression(&mut self, precedence: Precedence) -> (result: Result<
        Box<Expr>,
        ParseFailure,
    >)
        requires
            old(self).wf(),
        ensures
            final(self).wf(),
            result == expression(old(self).stream(), precedence).result,
            final(self).stream() == rest(
                old(self).stream(),
                expression(old(self).stream(), precedence).advanced,
            ),
            result matches Ok(e) ==> e.well_formed(),
        decreases old(self).stream().len(), 3nat,
    {
        let ghost tokens = self.stream();
        let ghost mut behind = prefix_term(tokens).advanced;
        proof {
            lemma_expression_well_formed(tokens, precedence);
        }
        let mut left = match self.parse_prefix() {
            Ok(e) => e,
            Err(f) => {
                return Err(f);
            },
        };
        while self.peek.is_some() && precedence.rank() < self.peek_precedence().rank()
            invariant
                self.wf(),
                tokens == old(self).stream(),
                self.stream() == rest(tokens, behind),
                expression(tokens, precedence) == climb(self.stream(), precedence, left).after(
                    behind,
                ),
            decreases self.stream().len(),
        {
            let ghost seen = self.stream();
            let ghost step = infix(rest(seen, 1), left);
            proof {
                self.lemma_lookahead();
            }
            self.next();
            left = match self.parse_infix(left) {
                Ok(e) => e,
                Err(f) => {
                    proof {
                        lemma_rest_of_rest(tokens, behind, 1);
                        lemma_rest_of_rest(tokens, behind + 1, step.advanced);
                    }
                    return Err(f);
                },
            };
            proof {
                lemma_rest_of_rest(tokens, behind, 1);
                lemma_rest_of_rest(tokens, behind + 1, step.advanced);
                behind = behind + 1 + step.advanced;
            }
        }
        proof {
            self.lemma_lookahead();
        }
        Ok(left)
    }

    /// Joins `left` to what follows the current token, if that token is a
    /// binary operator, and hands `left` back as it is otherwise.
    pub fn parse_infix(&mut self, left: Box<Expr>) -> (result: Result<Box<Expr>, ParseFailure>)
        requires
            old(self).wf(),
        ensures
            final(self).wf(),
            result == infix(old(self).stream(), left).result,
            final(self).stream() == rest(
                old(self).stream(),
                infix(old(self).stream(), left).advanced,
            ),
            left.well_formed() ==> (result matches Ok(e) ==> e.well_formed()),
        decreases old(self).stream().len(), 1nat,
    {
        proof {
            self.lemma_lookahead();
            if left.well_formed() {
                lemma_infix_well_formed(self.stream(), left);
            }
        }
        match self.curr {
            None => Err(ParseFailure::EmptyInput),
            Some(Token::Plus) | Some(Token::Minus) | Some(Token::Asterisk) | Some(Token::Slash) => {
                self.parse_infix_expression(left)
            },
            Some(_) => Ok(left),
        }
    }

    /// Builds the binary node of `left`, the current token as its operator,
    /// and a right operand read from behind that token.
    pub fn parse_infix_expression(&mut self, left: Box<Expr>) -> (result: Result<
        Box<Expr>,
        ParseFailure,
    >)
        requires
            old(self).wf(),
        ensures
            final(self).wf(),
            result == infix_expression(old(self).stream(), left).result,
            final(self).stream() == rest(
                old(self).stream(),
                infix_expression(old(self).stream(), left).advanced,
            ),
            left.well_formed() && old(self).stream().len() > 0 && is_binary_operator(
                old(self).stream()[0],
            ) ==> (result matches Ok(e) ==> e.well_formed()),
        decreases old(self).stream().len(), 0nat,
    {
        proof {
            self.lemma_lookahead();
            lemma_infix_expression_well_formed(self.stream(), left);
        }
        let token = match self.curr {
            Some(t) => t,
            None => {
                return Err(ParseFailure::EmptyInput);
            },
        };
        let ghost operand = expression(rest(self.stream(), 1), precedence_of(token));
        self.next();
        let precedence = Self::token_precedence(&token);
        let parsed = self.parse_expression(precedence);
        proof {
            lemma_rest_of_rest(old(self).stream(), 1, operand.advanced);
        }
        match parsed {
            Ok(right) => Ok(Box::new(Expr::InfixExpr { left, operator: token, right })),
            Err(f) => Err(f),
        }
    }

    /// Reports whether the token behind the current one is of the kind of
    /// `token`: a number like it, or the same symbol.
    pub fn is_peek(&self, token: &Token) -> (b: bool)
        requires
            self.wf(),
        ensures
            b == (self.stream().len() > 1 && same_kind(self.stream()[1], *token)),
    {
        proof {
            self.lemma_lookahead();
        }
        match self.peek {
            None => false,
            Some(Token::Number(_)) => match token {
                Token::Number(_) => true,
                _ => false,
            },
            Some(t) => t == *token,
        }
    }

    /// How tightly the token behind the current one binds; least of all if
    /// there is none.
    pub fn peek_precedence(&self) -> (p: Precedence)
        requires
            self.wf(),
        ensures
            p == if self.stream().len() > 1 {
                precedence_of(self.stream()[1])
            } else {
                Precedence::Lowest
            },
    {
        proof {
            self.lemma_lookahead();
        }
        match self.peek {
            None => Precedence::Lowest,
            Some(token) => Self::token_precedence(&token),
        }
    }

    /// How tightly `token` binds as a binary operator.
    pub fn token_precedence(token: &Token) -> (p: Precedence)
        ensures
            p == precedence_of(*token),
    {
        match token {
            Token::Plus | Token::Minus => Precedence::Sum,
            Token::Slash | Token::Asterisk => Precedence::Product,
            _ => Precedence::Lowest,
        }
    }
}

} // verus!
