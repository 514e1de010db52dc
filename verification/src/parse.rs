//! The parser: a Pratt parser for expressions and a recursive-descent parser
//! for statements, both over a stream of tokens with one token of lookahead.

use vstd::pervasive::unreached;
use vstd::prelude::*;
use vstd::string::StringExecFns;
use crate::lex::{token_models, token_text, Token};
use crate::number::{formats, formatting_ok, Text};

verus! {

/// An expression. `S` is the type of the text in its leaves: `String` in
/// running code, `Seq<char>` in contracts.
#[derive(Debug, PartialEq)]
pub enum ExpressionTree<S = String> {
    Primary(Primary<S>),
    Unary(Unary<S>),
    Factor(Factor<S>),
    Term(Term<S>),
    Comparison(Comparison<S>),
    Equality(Equality<S>),
    /// The name that is assigned to, and the expression whose value it gets.
    Assignment(S, Box<ExpressionTree<S>>),
}

/// An expression without an operator of its own: a literal, a name, or an
/// expression in parentheses.
#[derive(Debug, PartialEq)]
pub enum Primary<S = String> {
    String(S),
    /// The encoding of the number.
    Number(u64),
    True,
    False,
    Nil,
    Group(Box<ExpressionTree<S>>),
    /// A variable that is read.
    Identifier(S),
}

/// A prefix operator with its operand.
#[derive(Debug, PartialEq)]
pub enum Unary<S = String> {
    Bang(Box<ExpressionTree<S>>),
    Minus(Box<ExpressionTree<S>>),
}

/// A division or a multiplication.
#[derive(Debug, PartialEq)]
pub enum Factor<S = String> {
    Slash(Box<ExpressionTree<S>>, Box<ExpressionTree<S>>),
    Star(Box<ExpressionTree<S>>, Box<ExpressionTree<S>>),
}

/// A subtraction or an addition.
#[derive(Debug, PartialEq)]
pub enum Term<S = String> {
    Minus(Box<ExpressionTree<S>>, Box<ExpressionTree<S>>),
    Plus(Box<ExpressionTree<S>>, Box<ExpressionTree<S>>),
}

/// A comparison of two numbers.
#[derive(Debug, PartialEq)]
pub enum Comparison<S = String> {
    Less(Box<ExpressionTree<S>>, Box<ExpressionTree<S>>),
    LessEqual(Box<ExpressionTree<S>>, Box<ExpressionTree<S>>),
    Greater(Box<ExpressionTree<S>>, Box<ExpressionTree<S>>),
    GreaterEqual(Box<ExpressionTree<S>>, Box<ExpressionTree<S>>),
}

/// A test for equality or inequality.
#[derive(Debug, PartialEq)]
pub enum Equality<S = String> {
    EqualEqual(Box<ExpressionTree<S>>, Box<ExpressionTree<S>>),
    BangEqual(Box<ExpressionTree<S>>, Box<ExpressionTree<S>>),
}

/// A statement.
#[derive(Debug, PartialEq)]
pub enum StatementTree<S = String> {
    /// Print statement.
    Print(ExpressionTree<S>),
    /// Expression statement, for expressions that have a side effect.
    Expr(ExpressionTree<S>),
    /// Block statement: a scope of its own.
    Block(Vec<StatementTree<S>>),
    VarDeclaration { ident: S, expr: Option<ExpressionTree<S>> },
}

/// A statement as the contracts see it.
pub enum Statement {
    Print(ExpressionTree<Text>),
    Expr(ExpressionTree<Text>),
    Block(Seq<Statement>),
    VarDeclaration { ident: Text, expr: Option<ExpressionTree<Text>> },
}

/// Why a sequence of tokens is no expression or statement.
#[derive(Debug, PartialEq)]
pub enum ParseExpressionError<S = String> {
    /// No expression starts with this token.
    InvalidToken(Token<S>),
    MissingRightParen,
    MissingRightBrace,
    /// A statement does not end with `;`.
    ExpectedSemicolon,
    /// `var` is not followed by a name.
    ExpectedIdentifier,
}

impl ExpressionTree<String> {
    /// The same tree over plain text.
    pub open spec fn model(self) -> ExpressionTree<Text>
        decreases self,
    {
        match self {
            ExpressionTree::Primary(Primary::String(text)) => ExpressionTree::Primary(
                Primary::String(text@),
            ),
            ExpressionTree::Primary(Primary::Number(bits)) => ExpressionTree::Primary(
                Primary::Number(bits),
            ),
            ExpressionTree::Primary(Primary::True) => ExpressionTree::Primary(Primary::True),
            ExpressionTree::Primary(Primary::False) => ExpressionTree::Primary(Primary::False),
            ExpressionTree::Primary(Primary::Nil) => ExpressionTree::Primary(Primary::Nil),
            ExpressionTree::Primary(Primary::Group(inner)) => ExpressionTree::Primary(
                Primary::Group(Box::new(inner.model())),
            ),
            ExpressionTree::Primary(Primary::Identifier(name)) => ExpressionTree::Primary(
                Primary::Identifier(name@),
            ),
            ExpressionTree::Unary(Unary::Bang(operand)) => ExpressionTree::Unary(
                Unary::Bang(Box::new(operand.model())),
            ),
            ExpressionTree::Unary(Unary::Minus(operand)) => ExpressionTree::Unary(
                Unary::Minus(Box::new(operand.model())),
            ),
            ExpressionTree::Factor(Factor::Slash(lhs, rhs)) => ExpressionTree::Factor(
                Factor::Slash(Box::new(lhs.model()), Box::new(rhs.model())),
            ),
            ExpressionTree::Factor(Factor::Star(lhs, rhs)) => ExpressionTree::Factor(
                Factor::Star(Box::new(lhs.model()), Box::new(rhs.model())),
            ),
            ExpressionTree::Term(Term::Minus(lhs, rhs)) => ExpressionTree::Term(
                Term::Minus(Box::new(lhs.model()), Box::new(rhs.model())),
            ),
            ExpressionTree::Term(Term::Plus(lhs, rhs)) => ExpressionTree::Term(
                Term::Plus(Box::new(lhs.model()), Box::new(rhs.model())),
            ),
            ExpressionTree::Comparison(Comparison::Less(lhs, rhs)) => ExpressionTree::Comparison(
                Comparison::Less(Box::new(lhs.model()), Box::new(rhs.model())),
            ),
            ExpressionTree::Comparison(Comparison::LessEqual(lhs, rhs)) => {
                ExpressionTree::Comparison(
                    Comparison::LessEqual(Box::new(lhs.model()), Box::new(rhs.model())),
                )
            },
            ExpressionTree::Comparison(Comparison::Greater(lhs, rhs)) => {
                ExpressionTree::Comparison(
                    Comparison::Greater(Box::new(lhs.model()), Box::new(rhs.model())),
                )
            },
            ExpressionTree::Comparison(Comparison::GreaterEqual(lhs, rhs)) => {
                ExpressionTree::Comparison(
                    Comparison::GreaterEqual(Box::new(lhs.model()), Box::new(rhs.model())),
                )
            },
            ExpressionTree::Equality(Equality::EqualEqual(lhs, rhs)) => ExpressionTree::Equality(
                Equality::EqualEqual(Box::new(lhs.model()), Box::new(rhs.model())),
            ),
            ExpressionTree::Equality(Equality::BangEqual(lhs, rhs)) => ExpressionTree::Equality(
                Equality::BangEqual(Box::new(lhs.model()), Box::new(rhs.model())),
            ),
            ExpressionTree::Assignment(name, value) => ExpressionTree::Assignment(
                name@,
                Box::new(value.model()),
            ),
        }
    }
}

impl View for ExpressionTree<String> {
    type V = ExpressionTree<Text>;

    open spec fn view(&self) -> ExpressionTree<Text> {
        self.model()
    }
}

impl StatementTree<String> {
    /// The same statement over plain text.
    pub open spec fn model(self) -> Statement
        decreases self,
    {
        match self {
            StatementTree::Print(expr) => Statement::Print(expr@),
            StatementTree::Expr(expr) => Statement::Expr(expr@),
            StatementTree::Block(statements) => Statement::Block(statement_models(statements@)),
            StatementTree::VarDeclaration { ident, expr } => Statement::VarDeclaration {
                ident: ident@,
                expr: match expr {
                    Some(tree) => Some(tree@),
                    None => None,
                },
            },
        }
    }
}

/// The statements of a list, each as the contracts see it.
pub open spec fn statement_models(statements: Seq<StatementTree>) -> Seq<Statement>
    decreases statements,
{
    if statements.len() == 0 {
        Seq::empty()
    } else {
        statement_models(statements.drop_last()).push(statements.last().model())
    }
}

/// The models of a list stand at the places of the statements they model.
pub proof fn lemma_statement_models(statements: Seq<StatementTree>)
    ensures
        statement_models(statements).len() == statements.len(),
        forall|i: int|
            0 <= i < statements.len() ==> (#[trigger] statement_models(statements)[i])
                == statements[i]@,
    decreases statements.len(),
{
    if statements.len() > 0 {
        lemma_statement_models(statements.drop_last());
    }
}

impl View for StatementTree<String> {
    type V = Statement;

    open spec fn view(&self) -> Statement {
        self.model()
    }
}

impl View for ParseExpressionError<String> {
    type V = ParseExpressionError<Text>;

    open spec fn view(&self) -> ParseExpressionError<Text> {
        match *self {
            ParseExpressionError::InvalidToken(token) => ParseExpressionError::InvalidToken(token@),
            ParseExpressionError::MissingRightParen => ParseExpressionError::MissingRightParen,
            ParseExpressionError::MissingRightBrace => ParseExpressionError::MissingRightBrace,
            ParseExpressionError::ExpectedSemicolon => ParseExpressionError::ExpectedSemicolon,
            ParseExpressionError::ExpectedIdentifier => ParseExpressionError::ExpectedIdentifier,
        }
    }
}

/// An infix operator.
#[derive(Clone, Copy, Debug, PartialEq, Eq)]
pub enum BinaryOp {
    Star,
    Slash,
    Plus,
    Minus,
    Less,
    LessEqual,
    Greater,
    GreaterEqual,
    EqualEqual,
    BangEqual,
}

/// How tightly an infix operator binds its operands; higher binds tighter.
pub open spec fn binding_power(op: BinaryOp) -> int {
    match op {
        BinaryOp::Star | BinaryOp::Slash => 5,
        BinaryOp::Plus | BinaryOp::Minus => 4,
        BinaryOp::Less | BinaryOp::LessEqual | BinaryOp::Greater | BinaryOp::GreaterEqual => 3,
        BinaryOp::EqualEqual | BinaryOp::BangEqual => 2,
    }
}

/// The binding power with which the operand of a prefix `-` or `!` is parsed.
pub const PREFIX_BINDING_POWER: u8 = 5;

/// The binding power with which the right side of an assignment is parsed.
pub const ASSIGNMENT_BINDING_POWER: u8 = 1;

/// The infix operator that a token stands for, if it stands for one.
pub open spec fn infix_operator<S>(token: Token<S>) -> Option<BinaryOp> {
    match token {
        Token::Star => Some(BinaryOp::Star),
        Token::Slash => Some(BinaryOp::Slash),
        Token::Plus => Some(BinaryOp::Plus),
        Token::Minus => Some(BinaryOp::Minus),
        Token::Less => Some(BinaryOp::Less),
        Token::LessEqual => Some(BinaryOp::LessEqual),
        Token::Greater => Some(BinaryOp::Greater),
        Token::GreaterEqual => Some(BinaryOp::GreaterEqual),
        Token::EqualEqual => Some(BinaryOp::EqualEqual),
        Token::BangEqual => Some(BinaryOp::BangEqual),
        _ => None,
    }
}

/// The node that an infix operator makes of its two operands.
pub open spec fn binary<S>(op: BinaryOp, lhs: ExpressionTree<S>, rhs: ExpressionTree<S>)
    -> ExpressionTree<S> {
    let lhs = Box::new(lhs);
    let rhs = Box::new(rhs);
    match op {
        BinaryOp::Star => ExpressionTree::Factor(Factor::Star(lhs, rhs)),
        BinaryOp::Slash => ExpressionTree::Factor(Factor::Slash(lhs, rhs)),
        BinaryOp::Plus => ExpressionTree::Term(Term::Plus(lhs, rhs)),
        BinaryOp::Minus => ExpressionTree::Term(Term::Minus(lhs, rhs)),
        BinaryOp::Less => ExpressionTree::Comparison(Comparison::Less(lhs, rhs)),
        BinaryOp::LessEqual => ExpressionTree::Comparison(Comparison::LessEqual(lhs, rhs)),
        BinaryOp::Greater => ExpressionTree::Comparison(Comparison::Greater(lhs, rhs)),
        BinaryOp::GreaterEqual => ExpressionTree::Comparison(Comparison::GreaterEqual(lhs, rhs)),
        BinaryOp::EqualEqual => ExpressionTree::Equality(Equality::EqualEqual(lhs, rhs)),
        BinaryOp::BangEqual => ExpressionTree::Equality(Equality::BangEqual(lhs, rhs)),
    }
}

/// The operator and the two operands of a tree that an infix operator made.
pub open spec fn operands<S>(tree: ExpressionTree<S>) -> Option<
    (BinaryOp, ExpressionTree<S>, ExpressionTree<S>),
> {
    match tree {
        ExpressionTree::Factor(Factor::Star(lhs, rhs)) => Some((BinaryOp::Star, *lhs, *rhs)),
        ExpressionTree::Factor(Factor::Slash(lhs, rhs)) => Some((BinaryOp::Slash, *lhs, *rhs)),
        ExpressionTree::Term(Term::Plus(lhs, rhs)) => Some((BinaryOp::Plus, *lhs, *rhs)),
        ExpressionTree::Term(Term::Minus(lhs, rhs)) => Some((BinaryOp::Minus, *lhs, *rhs)),
        ExpressionTree::Comparison(Comparison::Less(lhs, rhs)) => Some(
            (BinaryOp::Less, *lhs, *rhs),
        ),
        ExpressionTree::Comparison(Comparison::LessEqual(lhs, rhs)) => Some(
            (BinaryOp::LessEqual, *lhs, *rhs),
        ),
        ExpressionTree::Comparison(Comparison::Greater(lhs, rhs)) => Some(
            (BinaryOp::Greater, *lhs, *rhs),
        ),
        ExpressionTree::Comparison(Comparison::GreaterEqual(lhs, rhs)) => Some(
            (BinaryOp::GreaterEqual, *lhs, *rhs),
        ),
        ExpressionTree::Equality(Equality::EqualEqual(lhs, rhs)) => Some(
            (BinaryOp::EqualEqual, *lhs, *rhs),
        ),
        ExpressionTree::Equality(Equality::BangEqual(lhs, rhs)) => Some(
            (BinaryOp::BangEqual, *lhs, *rhs),
        ),
        _ => None,
    }
}

/// The operator and the two operands of a tree that an infix operator
/// made; none for every other tree.
pub fn operands_of(tree: &ExpressionTree) -> (parts: Option<
    (BinaryOp, &ExpressionTree, &ExpressionTree),
>)
    ensures
        match parts {
            Some((op, lhs, rhs)) => operands(*tree) == Some((op, *lhs, *rhs)) && decreases_to!(tree => lhs)
                && decreases_to!(tree => rhs),
            None => operands(*tree) is None,
        },
{
    match tree {
        ExpressionTree::Factor(Factor::Star(lhs, rhs)) => Some((BinaryOp::Star, lhs, rhs)),
        ExpressionTree::Factor(Factor::Slash(lhs, rhs)) => Some((BinaryOp::Slash, lhs, rhs)),
        ExpressionTree::Term(Term::Plus(lhs, rhs)) => Some((BinaryOp::Plus, lhs, rhs)),
        ExpressionTree::Term(Term::Minus(lhs, rhs)) => Some((BinaryOp::Minus, lhs, rhs)),
        ExpressionTree::Comparison(Comparison::Less(lhs, rhs)) => Some((BinaryOp::Less, lhs, rhs)),
        ExpressionTree::Comparison(Comparison::LessEqual(lhs, rhs)) => Some(
            (BinaryOp::LessEqual, lhs, rhs),
        ),
        ExpressionTree::Comparison(Comparison::Greater(lhs, rhs)) => Some(
            (BinaryOp::Greater, lhs, rhs),
        ),
        ExpressionTree::Comparison(Comparison::GreaterEqual(lhs, rhs)) => Some(
            (BinaryOp::GreaterEqual, lhs, rhs),
        ),
        ExpressionTree::Equality(Equality::EqualEqual(lhs, rhs)) => Some(
            (BinaryOp::EqualEqual, lhs, rhs),
        ),
        ExpressionTree::Equality(Equality::BangEqual(lhs, rhs)) => Some(
            (BinaryOp::BangEqual, lhs, rhs),
        ),
        _ => None,
    }
}

/// The operands of a tree's model are the models of the tree's operands.
pub proof fn lemma_operands_model(tree: ExpressionTree)
    ensures
        operands(tree@) == match operands(tree) {
            Some((op, lhs, rhs)) => Some((op, lhs@, rhs@)),
            None => None,
        },
{
}

/// What a parse gives: the tree or the error, and the position of the first
/// token that it has not consumed.
pub struct Parsed<T> {
    pub result: Result<T, ParseExpressionError<Text>>,
    pub position: nat,
}

/// The token at a position, if the sequence reaches that far.
pub open spec fn token_at(tokens: Seq<Token<Text>>, position: nat) -> Option<Token<Text>> {
    if position < tokens.len() {
        Some(tokens[position as int])
    } else {
        None
    }
}

/// How many tokens stand at and behind a position.
pub open spec fn remaining(tokens: Seq<Token<Text>>, position: nat) -> nat {
    if position <= tokens.len() {
        (tokens.len() - position) as nat
    } else {
        0
    }
}

/// `position`, but never before `floor`. No parse ends before the position
/// it started at (`lemma_parse_advances`, `lemma_statement_advances`), so
/// wherever the definitions below use this it gives `position` itself; it is
/// there to make their recursion visibly well-founded.
pub open spec fn at_least(floor: nat, position: nat) -> nat {
    if position < floor {
        floor
    } else {
        position
    }
}

/// The position behind a token that was required at `position`: the token
/// there, whatever it is, is consumed.
pub open spec fn behind(tokens: Seq<Token<Text>>, position: nat) -> nat {
    if position < tokens.len() {
        position + 1
    } else {
        position
    }
}

/// The expression that starts at `position` and whose infix operators all
/// bind tighter than `min_bp`.
pub open spec fn parse_expression(tokens: Seq<Token<Text>>, position: nat, min_bp: int) -> Parsed<
    ExpressionTree<Text>,
>
    decreases remaining(tokens, position), 1nat,
{
    let prefix = parse_prefix(tokens, position);
    match prefix.result {
        Err(_) => prefix,
        Ok(lhs) => parse_infix(tokens, at_least(position, prefix.position), lhs, min_bp),
    }
}

/// The operand that starts at `position`: a literal, a name, an assignment,
/// a parenthesized expression, or a prefix operator with its operand. At the
/// end of the tokens it is `nil`.
pub open spec fn parse_prefix(tokens: Seq<Token<Text>>, position: nat) -> Parsed<
    ExpressionTree<Text>,
>
    decreases remaining(tokens, position), 0nat,
{
    match token_at(tokens, position) {
        None => Parsed { result: Ok(ExpressionTree::Primary(Primary::Nil)), position },
        Some(token) => match token {
            Token::Nil => Parsed {
                result: Ok(ExpressionTree::Primary(Primary::Nil)),
                position: position + 1,
            },
            Token::True => Parsed {
                result: Ok(ExpressionTree::Primary(Primary::True)),
                position: position + 1,
            },
            Token::False => Parsed {
                result: Ok(ExpressionTree::Primary(Primary::False)),
                position: position + 1,
            },
            Token::Number(bits, _) => Parsed {
                result: Ok(ExpressionTree::Primary(Primary::Number(bits))),
                position: position + 1,
            },
            Token::String(text) => Parsed {
                result: Ok(ExpressionTree::Primary(Primary::String(text))),
                position: position + 1,
            },
            Token::LeftParen => {
                let inner = parse_expression(tokens, position + 1, 0);
                match inner.result {
                    Err(_) => inner,
                    Ok(tree) => {
                        let close = at_least(position + 1, inner.position);
                        Parsed {
                            result: if token_at(tokens, close) == Some(Token::<Text>::RightParen) {
                                Ok(ExpressionTree::Primary(Primary::Group(Box::new(tree))))
                            } else {
                                Err(ParseExpressionError::MissingRightParen)
                            },
                            position: behind(tokens, close),
                        }
                    },
                }
            },
            Token::Identifier(name) => {
                if token_at(tokens, position + 1) == Some(Token::<Text>::Equal) {
                    let value = parse_expression(
                        tokens,
                        position + 2,
                        ASSIGNMENT_BINDING_POWER as int,
                    );
                    match value.result {
                        Err(_) => value,
                        Ok(tree) => Parsed {
                            result: Ok(ExpressionTree::Assignment(name, Box::new(tree))),
                            position: value.position,
                        },
                    }
                } else {
                    Parsed {
                        result: Ok(ExpressionTree::Primary(Primary::Identifier(name))),
                        position: position + 1,
                    }
                }
            },
            Token::Minus => {
                let operand = parse_expression(tokens, position + 1, PREFIX_BINDING_POWER as int);
                match operand.result {
                    Err(_) => operand,
                    Ok(tree) => Parsed {
                        result: Ok(ExpressionTree::Unary(Unary::Minus(Box::new(tree)))),
                        position: operand.position,
                    },
                }
            },
            Token::Bang => {
                let operand = parse_expression(tokens, position + 1, PREFIX_BINDING_POWER as int);
                match operand.result {
                    Err(_) => operand,
                    Ok(tree) => Parsed {
                        result: Ok(ExpressionTree::Unary(Unary::Bang(Box::new(tree)))),
                        position: operand.position,
                    },
                }
            },
            other => Parsed {
                result: Err(ParseExpressionError::InvalidToken(other)),
                position: position + 1,
            },
        },
    }
}

/// `lhs` extended to the right, from `position` on, by every infix operator
/// that binds tighter than `min_bp`, each with its right operand.
pub open spec fn parse_infix(
    tokens: Seq<Token<Text>>,
    position: nat,
    lhs: ExpressionTree<Text>,
    min_bp: int,
) -> Parsed<ExpressionTree<Text>>
    decreases remaining(tokens, position), 0nat,
{
    match token_at(tokens, position) {
        None => Parsed { result: Ok(lhs), position },
        Some(token) => match infix_operator(token) {
            None => Parsed { result: Ok(lhs), position },
            Some(op) => {
                if binding_power(op) > min_bp {
                    let rhs = parse_expression(tokens, position + 1, binding_power(op));
                    match rhs.result {
                        Err(_) => rhs,
                        Ok(right) => parse_infix(
                            tokens,
                            at_least(position + 1, rhs.position),
                            binary(op, lhs, right),
                            min_bp,
                        ),
                    }
                } else {
                    Parsed { result: Ok(lhs), position }
                }
            },
        },
    }
}

/// No expression ends before the position it starts at, and one that starts
/// at a token ends behind it.
pub proof fn lemma_parse_advances(tokens: Seq<Token<Text>>, position: nat, min_bp: int)
    ensures
        parse_expression(tokens, position, min_bp).position >= position,
        position < tokens.len() ==> parse_expression(tokens, position, min_bp).position > position,
    decreases remaining(tokens, position), 1nat,
{
    let prefix = parse_prefix(tokens, position);
    lemma_prefix_advances(tokens, position);
    if let Ok(lhs) = prefix.result {
        lemma_infix_advances(tokens, prefix.position, lhs, min_bp);
    }
}

/// No operand ends before the position it starts at, and one that starts at
/// a token ends behind it.
pub proof fn lemma_prefix_advances(tokens: Seq<Token<Text>>, position: nat)
    ensures
        parse_prefix(tokens, position).position >= position,
        position < tokens.len() ==> parse_prefix(tokens, position).position > position,
    decreases remaining(tokens, position), 0nat,
{
    match token_at(tokens, position) {
        Some(Token::LeftParen) => {
            lemma_parse_advances(tokens, position + 1, 0);
        },
        Some(Token::Identifier(_)) => {
            if token_at(tokens, position + 1) == Some(Token::<Text>::Equal) {
                lemma_parse_advances(tokens, position + 2, ASSIGNMENT_BINDING_POWER as int);
            }
        },
        Some(Token::Minus) => {
            lemma_parse_advances(tokens, position + 1, PREFIX_BINDING_POWER as int);
        },
        Some(Token::Bang) => {
            lemma_parse_advances(tokens, position + 1, PREFIX_BINDING_POWER as int);
        },
        _ => {},
    }
}

/// Extending an operand to the right never goes back.
pub proof fn lemma_infix_advances(
    tokens: Seq<Token<Text>>,
    position: nat,
    lhs: ExpressionTree<Text>,
    min_bp: int,
)
    ensures
        parse_infix(tokens, position, lhs, min_bp).position >= position,
    decreases remaining(tokens, position), 0nat,
{
    if let Some(token) = token_at(tokens, position) {
        if let Some(op) = infix_operator(token) {
            if binding_power(op) > min_bp {
                let rhs = parse_expression(tokens, position + 1, binding_power(op));
                lemma_parse_advances(tokens, position + 1, binding_power(op));
                if let Ok(right) = rhs.result {
                    lemma_infix_advances(tokens, rhs.position, binary(op, lhs, right), min_bp);
                }
            }
        }
    }
}

/// A parse whose positions are counted from `by` tokens further to the
/// front.
pub open spec fn shifted<T>(parsed: Parsed<T>, by: nat) -> Parsed<T> {
    Parsed { result: parsed.result, position: parsed.position + by }
}

/// An expression does not depend on the tokens before it.
pub proof fn lemma_parse_shift(
    front: Seq<Token<Text>>,
    rest: Seq<Token<Text>>,
    position: nat,
    min_bp: int,
)
    ensures
        parse_expression(front + rest, front.len() + position, min_bp) == shifted(
            parse_expression(rest, position, min_bp),
            front.len(),
        ),
    decreases remaining(rest, position), 1nat,
{
    lemma_prefix_shift(front, rest, position);
    let prefix = parse_prefix(rest, position);
    lemma_prefix_advances(rest, position);
    if let Ok(lhs) = prefix.result {
        lemma_infix_shift(front, rest, prefix.position, lhs, min_bp);
    }
}

/// An operand does not depend on the tokens before it.
pub proof fn lemma_prefix_shift(front: Seq<Token<Text>>, rest: Seq<Token<Text>>, position: nat)
    ensures
        parse_prefix(front + rest, front.len() + position) == shifted(
            parse_prefix(rest, position),
            front.len(),
        ),
    decreases remaining(rest, position), 0nat,
{
    lemma_token_shift(front, rest, position);
    lemma_token_shift(front, rest, position + 1);
    match token_at(rest, position) {
        Some(Token::LeftParen) => {
            lemma_parse_shift(front, rest, position + 1, 0);
            lemma_parse_advances(rest, position + 1, 0);
            let inner = parse_expression(rest, position + 1, 0);
            lemma_token_shift(front, rest, inner.position);
        },
        Some(Token::Identifier(_)) => {
            if token_at(rest, position + 1) == Some(Token::<Text>::Equal) {
                lemma_parse_shift(front, rest, position + 2, ASSIGNMENT_BINDING_POWER as int);
            }
        },
        Some(Token::Minus) => {
            lemma_parse_shift(front, rest, position + 1, PREFIX_BINDING_POWER as int);
        },
        Some(Token::Bang) => {
            lemma_parse_shift(front, rest, position + 1, PREFIX_BINDING_POWER as int);
        },
        _ => {},
    }
}

/// Extending an operand to the right does not depend on the tokens before
/// it.
pub proof fn lemma_infix_shift(
    front: Seq<Token<Text>>,
    rest: Seq<Token<Text>>,
    position: nat,
    lhs: ExpressionTree<Text>,
    min_bp: int,
)
    ensures
        parse_infix(front + rest, front.len() + position, lhs, min_bp) == shifted(
            parse_infix(rest, position, lhs, min_bp),
            front.len(),
        ),
    decreases remaining(rest, position), 0nat,
{
    lemma_token_shift(front, rest, position);
    if let Some(token) = token_at(rest, position) {
        if let Some(op) = infix_operator(token) {
            if binding_power(op) > min_bp {
                let rhs = parse_expression(rest, position + 1, binding_power(op));
                lemma_parse_shift(front, rest, position + 1, binding_power(op));
                lemma_parse_advances(rest, position + 1, binding_power(op));
                if let Ok(right) = rhs.result {
                    lemma_infix_shift(front, rest, rhs.position, binary(op, lhs, right), min_bp);
                }
            }
        }
    }
}

/// The token at a place does not depend on the tokens before it.
pub proof fn lemma_token_shift(front: Seq<Token<Text>>, rest: Seq<Token<Text>>, position: nat)
    ensures
        token_at(front + rest, front.len() + position) == token_at(rest, position),
{
    if position < rest.len() {
        assert((front + rest)[front.len() + position as int] == rest[position as int]);
    }
}

/// Every infix operator binds tighter than an assignment does, so an
/// expression is the same whether it may hold any operator or only those that
/// bind tighter than assignment.
pub proof fn lemma_every_operator_binds(
    tokens: Seq<Token<Text>>,
    position: nat,
    lhs: ExpressionTree<Text>,
)
    ensures
        parse_infix(tokens, position, lhs, 0) == parse_infix(
            tokens,
            position,
            lhs,
            ASSIGNMENT_BINDING_POWER as int,
        ),
        parse_expression(tokens, position, 0) == parse_expression(
            tokens,
            position,
            ASSIGNMENT_BINDING_POWER as int,
        ),
    decreases remaining(tokens, position), 1nat,
{
    lemma_tighter_than_assignment(tokens, position, lhs);
    let prefix = parse_prefix(tokens, position);
    lemma_prefix_advances(tokens, position);
    if let Ok(first) = prefix.result {
        lemma_tighter_than_assignment(tokens, prefix.position, first);
    }
}

/// Extending an operand to the right is the same whether any operator may
/// follow or only those that bind tighter than assignment.
proof fn lemma_tighter_than_assignment(
    tokens: Seq<Token<Text>>,
    position: nat,
    lhs: ExpressionTree<Text>,
)
    ensures
        parse_infix(tokens, position, lhs, 0) == parse_infix(
            tokens,
            position,
            lhs,
            ASSIGNMENT_BINDING_POWER as int,
        ),
    decreases remaining(tokens, position), 0nat,
{
    if let Some(token) = token_at(tokens, position) {
        if let Some(op) = infix_operator(token) {
            let rhs = parse_expression(tokens, position + 1, binding_power(op));
            lemma_parse_advances(tokens, position + 1, binding_power(op));
            if let Ok(right) = rhs.result {
                lemma_tighter_than_assignment(tokens, rhs.position, binary(op, lhs, right));
            }
        }
    }
}

/// A sequence of tokens that is read from front to back, one token at a time,
/// with a look at the next token before it is taken.
pub struct TokenStream {
    tokens: Vec<Token>,
    position: usize,
}

impl TokenStream {
    /// All the tokens of the stream, those already taken included.
    pub closed spec fn tokens(&self) -> Seq<Token<Text>> {
        token_models(self.tokens@)
    }

    /// How many tokens have been taken.
    pub closed spec fn position(&self) -> nat {
        self.position as nat
    }

    /// A stream over `tokens`, of which none is taken yet.
    pub fn new(tokens: Vec<Token>) -> (stream: Self)
        ensures
            stream.tokens() == token_models(tokens@),
            stream.position() == 0,
    {
        TokenStream { tokens, position: 0 }
    }

    /// The next token, which stays in the stream.
    pub fn peek(&self) -> (token: Option<&Token>)
        ensures
            match token {
                Some(token) => token_at(self.tokens(), self.position()) == Some(token@),
                None => token_at(self.tokens(), self.position()) is None,
            },
    {
        if self.position < self.tokens.len() {
            Some(&self.tokens[self.position])
        } else {
            None
        }
    }

    /// Takes the next token out of the stream.
    pub fn next(&mut self) -> (token: Option<Token>)
        ensures
            final(self).tokens() == old(self).tokens(),
            final(self).position() == behind(old(self).tokens(), old(self).position()),
            match token {
                Some(token) => token_at(old(self).tokens(), old(self).position()) == Some(token@),
                None => token_at(old(self).tokens(), old(self).position()) is None,
            },
    {
        if self.position < self.tokens.len() {
            let token = self.tokens[self.position].clone();
            self.position = self.position + 1;
            Some(token)
        } else {
            None
        }
    }
}

/// The outcome of a parse as the contracts see it.
pub open spec fn parse_model(result: Result<ExpressionTree, ParseExpressionError>) -> Result<
    ExpressionTree<Text>,
    ParseExpressionError<Text>,
> {
    match result {
        Ok(tree) => Ok(tree@),
        Err(error) => Err(error@),
    }
}

fn infix_operator_of(token: &Token) -> (op: Option<BinaryOp>)
    ensures
        op == infix_operator(token@),
{
    match token {
        Token::Star => Some(BinaryOp::Star),
        Token::Slash => Some(BinaryOp::Slash),
        Token::Plus => Some(BinaryOp::Plus),
        Token::Minus => Some(BinaryOp::Minus),
        Token::Less => Some(BinaryOp::Less),
        Token::LessEqual => Some(BinaryOp::LessEqual),
        Token::Greater => Some(BinaryOp::Greater),
        Token::GreaterEqual => Some(BinaryOp::GreaterEqual),
        Token::EqualEqual => Some(BinaryOp::EqualEqual),
        Token::BangEqual => Some(BinaryOp::BangEqual),
        _ => None,
    }
}

fn binding_power_of(op: BinaryOp) -> (bp: u8)
    ensures
        bp as int == binding_power(op),
{
    match op {
        BinaryOp::Star | BinaryOp::Slash => 5,
        BinaryOp::Plus | BinaryOp::Minus => 4,
        BinaryOp::Less | BinaryOp::LessEqual | BinaryOp::Greater | BinaryOp::GreaterEqual => 3,
        BinaryOp::EqualEqual | BinaryOp::BangEqual => 2,
    }
}

fn combine(op: BinaryOp, lhs: ExpressionTree, rhs: ExpressionTree) -> (tree: ExpressionTree)
    ensures
        tree@ == binary(op, lhs@, rhs@),
{
    let lhs = Box::new(lhs);
    let rhs = Box::new(rhs);
    match op {
        BinaryOp::Star => ExpressionTree::Factor(Factor::Star(lhs, rhs)),
        BinaryOp::Slash => ExpressionTree::Factor(Factor::Slash(lhs, rhs)),
        BinaryOp::Plus => ExpressionTree::Term(Term::Plus(lhs, rhs)),
        BinaryOp::Minus => ExpressionTree::Term(Term::Minus(lhs, rhs)),
        BinaryOp::Less => ExpressionTree::Comparison(Comparison::Less(lhs, rhs)),
        BinaryOp::LessEqual => ExpressionTree::Comparison(Comparison::LessEqual(lhs, rhs)),
        BinaryOp::Greater => ExpressionTree::Comparison(Comparison::Greater(lhs, rhs)),
        BinaryOp::GreaterEqual => ExpressionTree::Comparison(Comparison::GreaterEqual(lhs, rhs)),
        BinaryOp::EqualEqual => ExpressionTree::Equality(Equality::EqualEqual(lhs, rhs)),
        BinaryOp::BangEqual => ExpressionTree::Equality(Equality::BangEqual(lhs, rhs)),
    }
}

/// Parses one operand: what `parse_prefix` describes.
fn parse_operand(tokens: &mut TokenStream) -> (result: Result<
    ExpressionTree,
    ParseExpressionError,
>)
    ensures
        final(tokens).tokens() == old(tokens).tokens(),
        final(tokens).position() >= old(tokens).position(),
        final(tokens).position() == parse_prefix(
            old(tokens).tokens(),
            old(tokens).position(),
        ).position,
        parse_model(result) == parse_prefix(old(tokens).tokens(), old(tokens).position()).result,
        old(tokens).position() < old(tokens).tokens().len() ==> final(tokens).position() > old(
            tokens,
        ).position(),
    decreases remaining(old(tokens).tokens(), old(tokens).position()), 0nat,
{
    let head = match tokens.next() {
        None => {
            return Ok(ExpressionTree::Primary(Primary::Nil));
        },
        Some(token) => token,
    };
    match head {
        Token::Nil => Ok(ExpressionTree::Primary(Primary::Nil)),
        Token::True => Ok(ExpressionTree::Primary(Primary::True)),
        Token::False => Ok(ExpressionTree::Primary(Primary::False)),
        Token::Number(bits, _) => Ok(ExpressionTree::Primary(Primary::Number(bits))),
        Token::String(text) => Ok(ExpressionTree::Primary(Primary::String(text))),
        Token::LeftParen => {
            match parse_expr(tokens, 0) {
                Err(error) => Err(error),
                Ok(tree) => {
                    let closed = match tokens.next() {
                        Some(Token::RightParen) => true,
                        _ => false,
                    };
                    if closed {
                        Ok(ExpressionTree::Primary(Primary::Group(Box::new(tree))))
                    } else {
                        Err(ParseExpressionError::MissingRightParen)
                    }
                },
            }
        },
        Token::Identifier(name) => {
            let assigns = match tokens.peek() {
                Some(Token::Equal) => true,
                _ => false,
            };
            if assigns {
                tokens.next();
                match parse_expr(tokens, ASSIGNMENT_BINDING_POWER) {
                    Err(error) => Err(error),
                    Ok(tree) => Ok(ExpressionTree::Assignment(name, Box::new(tree))),
                }
            } else {
                Ok(ExpressionTree::Primary(Primary::Identifier(name)))
            }
        },
        Token::Minus => {
            match parse_expr(tokens, PREFIX_BINDING_POWER) {
                Err(error) => Err(error),
                Ok(tree) => Ok(ExpressionTree::Unary(Unary::Minus(Box::new(tree)))),
            }
        },
        Token::Bang => {
            match parse_expr(tokens, PREFIX_BINDING_POWER) {
                Err(error) => Err(error),
                Ok(tree) => Ok(ExpressionTree::Unary(Unary::Bang(Box::new(tree)))),
            }
        },
        other => Err(ParseExpressionError::InvalidToken(other)),
    }
}

/// Parses the expression at the front of the stream whose infix operators
/// all bind tighter than `min_bp`, and leaves the stream at the first token
/// that is not part of it.
pub fn parse_expr(tokens: &mut TokenStream, min_bp: u8) -> (result: Result<
    ExpressionTree,
    ParseExpressionError,
>)
    ensures
        final(tokens).tokens() == old(tokens).tokens(),
        final(tokens).position() >= old(tokens).position(),
        final(tokens).position() == parse_expression(
            old(tokens).tokens(),
            old(tokens).position(),
            min_bp as int,
        ).position,
        parse_model(result) == parse_expression(
            old(tokens).tokens(),
            old(tokens).position(),
            min_bp as int,
        ).result,
        old(tokens).position() < old(tokens).tokens().len() ==> final(tokens).position() > old(
            tokens,
        ).position(),
    decreases remaining(old(tokens).tokens(), old(tokens).position()), 1nat,
{
    let ghost all = tokens.tokens();
    let ghost start = tokens.position();
    let mut lhs = match parse_operand(tokens) {
        Err(error) => {
            return Err(error);
        },
        Ok(tree) => tree,
    };
    loop
        invariant
            all == old(tokens).tokens(),
            start == old(tokens).position(),
            tokens.tokens() == all,
            tokens.position() >= start,
            start < all.len() ==> tokens.position() > start,
            parse_infix(all, tokens.position(), lhs@, min_bp as int) == parse_expression(
                all,
                start,
                min_bp as int,
            ),
        decreases remaining(all, tokens.position()),
    {
        let op = match tokens.peek() {
            None => None,
            Some(token) => infix_operator_of(token),
        };
        let op = match op {
            None => {
                return Ok(lhs);
            },
            Some(op) => op,
        };
        let bp = binding_power_of(op);
        if bp <= min_bp {
            return Ok(lhs);
        }
        tokens.next();
        let rhs = match parse_expr(tokens, bp) {
            Err(error) => {
                return Err(error);
            },
            Ok(tree) => tree,
        };
        lhs = combine(op, lhs, rhs);
    }
}

/// The expression that starts at `position`, followed by the `;` that must
/// end it.
pub open spec fn parse_terminated(tokens: Seq<Token<Text>>, position: nat) -> Parsed<
    ExpressionTree<Text>,
> {
    let parsed = parse_expression(tokens, position, 0);
    match parsed.result {
        Err(_) => parsed,
        Ok(tree) => Parsed {
            result: if token_at(tokens, parsed.position) == Some(Token::<Text>::Semicolon) {
                Ok(tree)
            } else {
                Err(ParseExpressionError::ExpectedSemicolon)
            },
            position: behind(tokens, parsed.position),
        },
    }
}

/// A parsed list with `front` put before it.
pub open spec fn prepend(front: Seq<Statement>, parsed: Parsed<Seq<Statement>>) -> Parsed<
    Seq<Statement>,
> {
    Parsed {
        result: match parsed.result {
            Ok(list) => Ok(front + list),
            Err(error) => Err(error),
        },
        position: parsed.position,
    }
}

/// The statement that starts at `position`; none at the end of the tokens.
pub open spec fn parse_statement_at(tokens: Seq<Token<Text>>, position: nat) -> Parsed<
    Option<Statement>,
>
    decreases remaining(tokens, position), 0nat,
{
    match token_at(tokens, position) {
        None => Parsed { result: Ok(None), position },
        Some(token) => match token {
            Token::Print => {
                let parsed = parse_terminated(tokens, position + 1);
                Parsed {
                    result: match parsed.result {
                        Ok(tree) => Ok(Some(Statement::Print(tree))),
                        Err(error) => Err(error),
                    },
                    position: parsed.position,
                }
            },
            Token::Var => match token_at(tokens, position + 1) {
                Some(Token::Identifier(ident)) => {
                    if token_at(tokens, position + 2) == Some(Token::<Text>::Equal) {
                        let parsed = parse_terminated(tokens, position + 3);
                        Parsed {
                            result: match parsed.result {
                                Ok(tree) => Ok(
                                    Some(Statement::VarDeclaration { ident, expr: Some(tree) }),
                                ),
                                Err(error) => Err(error),
                            },
                            position: parsed.position,
                        }
                    } else {
                        Parsed {
                            result: if token_at(tokens, position + 2) == Some(
                                Token::<Text>::Semicolon,
                            ) {
                                Ok(Some(Statement::VarDeclaration { ident, expr: None }))
                            } else {
                                Err(ParseExpressionError::ExpectedSemicolon)
                            },
                            position: behind(tokens, position + 2),
                        }
                    }
                },
                _ => Parsed {
                    result: Err(ParseExpressionError::ExpectedIdentifier),
                    position: behind(tokens, position + 1),
                },
            },
            Token::LeftBrace => {
                let inner = parse_list(tokens, position + 1, true);
                match inner.result {
                    Err(error) => Parsed { result: Err(error), position: inner.position },
                    Ok(statements) => Parsed {
                        result: if token_at(tokens, inner.position) == Some(
                            Token::<Text>::RightBrace,
                        ) {
                            Ok(Some(Statement::Block(statements)))
                        } else {
                            Err(ParseExpressionError::MissingRightBrace)
                        },
                        position: behind(tokens, inner.position),
                    },
                }
            },
            _ => {
                let parsed = parse_terminated(tokens, position);
                Parsed {
                    result: match parsed.result {
                        Ok(tree) => Ok(Some(Statement::Expr(tree))),
                        Err(error) => Err(error),
                    },
                    position: parsed.position,
                }
            },
        },
    }
}

/// Whether a list of statements ends before `position`: at the end of the
/// tokens, and inside a block also before a `}`.
pub open spec fn list_ends(tokens: Seq<Token<Text>>, position: nat, in_block: bool) -> bool {
    match token_at(tokens, position) {
        None => true,
        Some(token) => in_block && token == Token::<Text>::RightBrace,
    }
}

/// The statements from `position` up to the end of the list.
pub open spec fn parse_list(tokens: Seq<Token<Text>>, position: nat, in_block: bool) -> Parsed<
    Seq<Statement>,
>
    decreases remaining(tokens, position), 1nat,
{
    if list_ends(tokens, position, in_block) {
        Parsed { result: Ok(Seq::empty()), position }
    } else {
        let first = parse_statement_at(tokens, position);
        match first.result {
            Err(error) => Parsed { result: Err(error), position: first.position },
            Ok(None) => Parsed { result: Ok(Seq::empty()), position: first.position },
            Ok(Some(statement)) => prepend(
                seq![statement],
                parse_list(tokens, at_least(position + 1, first.position), in_block),
            ),
        }
    }
}

/// No statement ends before the position it starts at, and one that starts
/// at a token ends behind it.
pub proof fn lemma_statement_advances(tokens: Seq<Token<Text>>, position: nat)
    ensures
        parse_statement_at(tokens, position).position >= position,
        position < tokens.len() ==> parse_statement_at(tokens, position).position > position,
    decreases remaining(tokens, position), 0nat,
{
    match token_at(tokens, position) {
        None => {},
        Some(Token::Print) => {
            lemma_parse_advances(tokens, position + 1, 0);
        },
        Some(Token::Var) => {
            lemma_parse_advances(tokens, position + 3, 0);
        },
        Some(Token::LeftBrace) => {
            lemma_list_advances(tokens, position + 1, true);
        },
        Some(_) => {
            lemma_parse_advances(tokens, position, 0);
        },
    }
}

/// No list of statements ends before the position it starts at.
pub proof fn lemma_list_advances(tokens: Seq<Token<Text>>, position: nat, in_block: bool)
    ensures
        parse_list(tokens, position, in_block).position >= position,
    decreases remaining(tokens, position), 1nat,
{
    if !list_ends(tokens, position, in_block) {
        let first = parse_statement_at(tokens, position);
        lemma_statement_advances(tokens, position);
        if let Ok(Some(_)) = first.result {
            lemma_list_advances(tokens, first.position, in_block);
        }
    }
}

/// The outcome of parsing one statement as the contracts see it.
pub open spec fn statement_model(
    result: Result<Option<StatementTree>, ParseExpressionError>,
) -> Result<Option<Statement>, ParseExpressionError<Text>> {
    match result {
        Ok(Some(statement)) => Ok(Some(statement@)),
        Ok(None) => Ok(None),
        Err(error) => Err(error@),
    }
}

/// The outcome of parsing a list of statements as the contracts see it.
pub open spec fn list_model(result: Result<Vec<StatementTree>, ParseExpressionError>) -> Result<
    Seq<Statement>,
    ParseExpressionError<Text>,
> {
    match result {
        Ok(statements) => Ok(statement_models(statements@)),
        Err(error) => Err(error@),
    }
}

/// Parses an expression and the `;` behind it.
fn parse_closed(tokens: &mut TokenStream) -> (result: Result<ExpressionTree, ParseExpressionError>)
    ensures
        final(tokens).tokens() == old(tokens).tokens(),
        final(tokens).position() >= old(tokens).position(),
        final(tokens).position() == parse_terminated(
            old(tokens).tokens(),
            old(tokens).position(),
        ).position,
        parse_model(result) == parse_terminated(
            old(tokens).tokens(),
            old(tokens).position(),
        ).result,
        old(tokens).position() < old(tokens).tokens().len() ==> final(tokens).position() > old(
            tokens,
        ).position(),
{
    match parse_expr(tokens, 0) {
        Err(error) => Err(error),
        Ok(tree) => {
            let ended = match tokens.next() {
                Some(Token::Semicolon) => true,
                _ => false,
            };
            if ended {
                Ok(tree)
            } else {
                Err(ParseExpressionError::ExpectedSemicolon)
            }
        },
    }
}

/// Parses the statement at the front of the stream. At the end of the stream
/// there is none.
pub fn parse_statement(tokens: &mut TokenStream) -> (result: Result<
    Option<StatementTree>,
    ParseExpressionError,
>)
    ensures
        final(tokens).tokens() == old(tokens).tokens(),
        final(tokens).position() >= old(tokens).position(),
        final(tokens).position() == parse_statement_at(
            old(tokens).tokens(),
            old(tokens).position(),
        ).position,
        statement_model(result) == parse_statement_at(
            old(tokens).tokens(),
            old(tokens).position(),
        ).result,
        old(tokens).position() < old(tokens).tokens().len() ==> final(tokens).position() > old(
            tokens,
        ).position(),
    decreases remaining(old(tokens).tokens(), old(tokens).position()), 0nat,
{
    let (is_print, is_var, is_block) = match tokens.peek() {
        None => {
            return Ok(None);
        },
        Some(Token::Print) => (true, false, false),
        Some(Token::Var) => (false, true, false),
        Some(Token::LeftBrace) => (false, false, true),
        Some(_) => (false, false, false),
    };
    if is_print {
        tokens.next();
        match parse_closed(tokens) {
            Err(error) => Err(error),
            Ok(expr) => Ok(Some(StatementTree::Print(expr))),
        }
    } else if is_var {
        tokens.next();
        let ident = match tokens.next() {
            Some(Token::Identifier(ident)) => ident,
            _ => {
                return Err(ParseExpressionError::ExpectedIdentifier);
            },
        };
        let initialized = match tokens.peek() {
            Some(Token::Equal) => true,
            _ => false,
        };
        if initialized {
            tokens.next();
            match parse_closed(tokens) {
                Err(error) => Err(error),
                Ok(expr) => Ok(Some(StatementTree::VarDeclaration { ident, expr: Some(expr) })),
            }
        } else {
            let ended = match tokens.next() {
                Some(Token::Semicolon) => true,
                _ => false,
            };
            if ended {
                Ok(Some(StatementTree::VarDeclaration { ident, expr: None }))
            } else {
                Err(ParseExpressionError::ExpectedSemicolon)
            }
        }
    } else if is_block {
        tokens.next();
        match parse_statement_list(tokens, true) {
            Err(error) => Err(error),
            Ok(statements) => {
                let closed = match tokens.next() {
                    Some(Token::RightBrace) => true,
                    _ => false,
                };
                if closed {
                    Ok(Some(StatementTree::Block(statements)))
                } else {
                    Err(ParseExpressionError::MissingRightBrace)
                }
            },
        }
    } else {
        match parse_closed(tokens) {
            Err(error) => Err(error),
            Ok(expr) => Ok(Some(StatementTree::Expr(expr))),
        }
    }
}

/// Parses statements up to the end of the stream, or inside a block up to
/// the `}` that closes it, which stays in the stream.
fn parse_statement_list(tokens: &mut TokenStream, in_block: bool) -> (result: Result<
    Vec<StatementTree>,
    ParseExpressionError,
>)
    ensures
        final(tokens).tokens() == old(tokens).tokens(),
        final(tokens).position() >= old(tokens).position(),
        final(tokens).position() == parse_list(
            old(tokens).tokens(),
            old(tokens).position(),
            in_block,
        ).position,
        list_model(result) == parse_list(
            old(tokens).tokens(),
            old(tokens).position(),
            in_block,
        ).result,
    decreases remaining(old(tokens).tokens(), old(tokens).position()), 1nat,
{
    let ghost all = tokens.tokens();
    let ghost start = tokens.position();
    let mut statements: Vec<StatementTree> = Vec::new();
    loop
        invariant
            all == old(tokens).tokens(),
            start == old(tokens).position(),
            tokens.tokens() == all,
            tokens.position() >= start,
            prepend(
                statement_models(statements@),
                parse_list(all, tokens.position(), in_block),
            ) == parse_list(all, start, in_block),
        decreases remaining(all, tokens.position()),
    {
        let ghost here = tokens.position();
        let ends = match tokens.peek() {
            None => true,
            Some(Token::RightBrace) => in_block,
            Some(_) => false,
        };
        if ends {
            proof {
                assert(list_ends(all, here, in_block));
                assert(statement_models(statements@) + Seq::<Statement>::empty()
                    =~= statement_models(statements@));
            }
            return Ok(statements);
        }
        assert(!list_ends(all, here, in_block));
        match parse_statement(tokens) {
            Err(error) => {
                return Err(error);
            },
            Ok(None) => {
                proof {
                    assert(statement_models(statements@) + Seq::<Statement>::empty()
                        =~= statement_models(statements@));
                }
                return Ok(statements);
            },
            Ok(Some(statement)) => {
                proof {
                    let before = statement_models(statements@);
                    let rest = parse_list(all, tokens.position(), in_block);
                    assert(statements@.push(statement).drop_last() =~= statements@);
                    if rest.result is Ok {
                        assert(before + (seq![statement@] + rest.result->Ok_0) =~= before.push(
                            statement@,
                        ) + rest.result->Ok_0);
                    }
                }
                statements.push(statement);
            },
        }
    }
}

/// Parses a whole program: the statements up to the end of the stream.
pub fn parse_statements(tokens: &mut TokenStream) -> (result: Result<
    Vec<StatementTree>,
    ParseExpressionError,
>)
    ensures
        final(tokens).tokens() == old(tokens).tokens(),
        final(tokens).position() == parse_list(
            old(tokens).tokens(),
            old(tokens).position(),
            false,
        ).position,
        list_model(result) == parse_list(
            old(tokens).tokens(),
            old(tokens).position(),
            false,
        ).result,
{
    parse_statement_list(tokens, false)
}

/// The sign of an infix operator.
pub open spec fn operator_symbol(op: BinaryOp) -> Text {
    match op {
        BinaryOp::Star => "*"@,
        BinaryOp::Slash => "/"@,
        BinaryOp::Plus => "+"@,
        BinaryOp::Minus => "-"@,
        BinaryOp::Less => "<"@,
        BinaryOp::LessEqual => "<="@,
        BinaryOp::Greater => ">"@,
        BinaryOp::GreaterEqual => ">="@,
        BinaryOp::EqualEqual => "=="@,
        BinaryOp::BangEqual => "!="@,
    }
}

/// An expression written out with every operator before its operands:
/// `(group e)`, `(! e)`, `(- e)`, `(+ a b)`. Literals and names stand as
/// they are, strings without quotes, numbers as `format` renders them; an
/// assignment is `name = e`.
pub open spec fn expression_text(format: spec_fn(u64) -> Text, tree: ExpressionTree<Text>) -> Text
    decreases tree,
{
    match tree {
        ExpressionTree::Primary(Primary::String(text)) => text,
        ExpressionTree::Primary(Primary::Number(bits)) => format(bits),
        ExpressionTree::Primary(Primary::True) => "true"@,
        ExpressionTree::Primary(Primary::False) => "false"@,
        ExpressionTree::Primary(Primary::Nil) => "nil"@,
        ExpressionTree::Primary(Primary::Group(inner)) => "(group "@ + expression_text(
            format,
            *inner,
        ) + ")"@,
        ExpressionTree::Primary(Primary::Identifier(name)) => name,
        ExpressionTree::Unary(Unary::Bang(operand)) => "(! "@ + expression_text(format, *operand)
            + ")"@,
        ExpressionTree::Unary(Unary::Minus(operand)) => "(- "@ + expression_text(
            format,
            *operand,
        ) + ")"@,
        ExpressionTree::Assignment(name, value) => name + " = "@ + expression_text(format, *value),
        // Every other tree is made by an infix operator.
        _ => {
            let (op, lhs, rhs) = operands(tree).unwrap();
            "("@ + operator_symbol(op) + " "@ + expression_text(format, lhs) + " "@
                + expression_text(format, rhs) + ")"@
        },
    }
}

fn operator_symbol_of(op: BinaryOp) -> (symbol: &'static str)
    ensures
        symbol@ == operator_symbol(op),
{
    match op {
        BinaryOp::Star => "*",
        BinaryOp::Slash => "/",
        BinaryOp::Plus => "+",
        BinaryOp::Minus => "-",
        BinaryOp::Less => "<",
        BinaryOp::LessEqual => "<=",
        BinaryOp::Greater => ">",
        BinaryOp::GreaterEqual => ">=",
        BinaryOp::EqualEqual => "==",
        BinaryOp::BangEqual => "!=",
    }
}

impl ExpressionTree<String> {
    /// Appends the text of this expression to `out`.
    fn write<F: Fn(u64) -> String>(&self, format: &F, out: &mut String)
        requires
            formatting_ok(*format),
        ensures
            forall|render: spec_fn(u64) -> Text| #[trigger]
                formats(*format, render) ==> final(out)@ == old(out)@ + expression_text(
                    render,
                    self@,
                ),
        decreases self,
    {
        match self {
            ExpressionTree::Primary(Primary::String(text)) => {
                out.append(text.as_str());
            },
            ExpressionTree::Primary(Primary::Number(bits)) => {
                let number = format(*bits);
                out.append(number.as_str());
            },
            ExpressionTree::Primary(Primary::True) => {
                out.append("true");
            },
            ExpressionTree::Primary(Primary::False) => {
                out.append("false");
            },
            ExpressionTree::Primary(Primary::Nil) => {
                out.append("nil");
            },
            ExpressionTree::Primary(Primary::Group(inner)) => {
                out.append("(group ");
                inner.write(format, out);
                out.append(")");
                assert forall|render: spec_fn(u64) -> Text| #[trigger]
                    formats(*format, render) implies out@ == old(out)@ + expression_text(
                    render,
                    self@,
                ) by {
                    assert(out@ =~= old(out)@ + expression_text(render, self@));
                }
            },
            ExpressionTree::Primary(Primary::Identifier(name)) => {
                out.append(name.as_str());
            },
            ExpressionTree::Unary(Unary::Bang(operand)) => {
                out.append("(! ");
                operand.write(format, out);
                out.append(")");
                assert forall|render: spec_fn(u64) -> Text| #[trigger]
                    formats(*format, render) implies out@ == old(out)@ + expression_text(
                    render,
                    self@,
                ) by {
                    assert(out@ =~= old(out)@ + expression_text(render, self@));
                }
            },
            ExpressionTree::Unary(Unary::Minus(operand)) => {
                out.append("(- ");
                operand.write(format, out);
                out.append(")");
                assert forall|render: spec_fn(u64) -> Text| #[trigger]
                    formats(*format, render) implies out@ == old(out)@ + expression_text(
                    render,
                    self@,
                ) by {
                    assert(out@ =~= old(out)@ + expression_text(render, self@));
                }
            },
            ExpressionTree::Assignment(name, value) => {
                out.append(name.as_str());
                out.append(" = ");
                value.write(format, out);
                assert forall|render: spec_fn(u64) -> Text| #[trigger]
                    formats(*format, render) implies out@ == old(out)@ + expression_text(
                    render,
                    self@,
                ) by {
                    assert(out@ =~= old(out)@ + expression_text(render, self@));
                }
            },
            _ => {
                let (op, lhs, rhs) = match operands_of(self) {
                    Some(parts) => parts,
                    None => unreached(),
                };
                proof {
                    lemma_operands_model(*self);
                }
                out.append("(");
                out.append(operator_symbol_of(op));
                out.append(" ");
                lhs.write(format, out);
                out.append(" ");
                rhs.write(format, out);
                out.append(")");
                assert forall|render: spec_fn(u64) -> Text| #[trigger]
                    formats(*format, render) implies out@ == old(out)@ + expression_text(
                    render,
                    self@,
                ) by {
                    assert(out@ =~= old(out)@ + expression_text(render, self@));
                }
            },
        }
    }

    /// This expression written out with every operator before its
    /// operands: what `expression_text` describes, with the function that
    /// `format` computes.
    pub fn to_text<F: Fn(u64) -> String>(&self, format: &F) -> (text: String)
        requires
            formatting_ok(*format),
        ensures
            forall|render: spec_fn(u64) -> Text| #[trigger]
                formats(*format, render) ==> text@ == expression_text(render, self@),
    {
        let mut text = String::new();
        self.write(format, &mut text);
        assert forall|render: spec_fn(u64) -> Text| #[trigger]
            formats(*format, render) implies text@ == expression_text(render, self@) by {
            assert(text@ =~= expression_text(render, self@));
        }
        text
    }
}

/// The message of a parse error.
pub open spec fn parse_error_text(format: spec_fn(u64) -> Text, error: ParseExpressionError<Text>)
    -> Text {
    match error {
        ParseExpressionError::InvalidToken(token) => "invalid token: "@ + token_text(format, token),
        ParseExpressionError::MissingRightParen => "missing right paren"@,
        ParseExpressionError::MissingRightBrace => "missing right brace"@,
        ParseExpressionError::ExpectedSemicolon => "expected semicolon"@,
        ParseExpressionError::ExpectedIdentifier => "expected identifier"@,
    }
}

impl ParseExpressionError<String> {
    /// The message of this error. `format` renders the value of a number,
    /// should the error hold a token that is one.
    pub fn to_text<F: Fn(u64) -> String>(&self, format: &F) -> (text: String)
        requires
            formatting_ok(*format),
        ensures
            forall|render: spec_fn(u64) -> Text| #[trigger]
                formats(*format, render) ==> text@ == parse_error_text(render, self@),
    {
        match self {
            ParseExpressionError::InvalidToken(token) => {
                let mut text = "invalid token: ".to_owned();
                let listed = token.to_text(format);
                text.append(listed.as_str());
                text
            },
            ParseExpressionError::MissingRightParen => "missing right paren".to_owned(),
            ParseExpressionError::MissingRightBrace => "missing right brace".to_owned(),
            ParseExpressionError::ExpectedSemicolon => "expected semicolon".to_owned(),
            ParseExpressionError::ExpectedIdentifier => "expected identifier".to_owned(),
        }
    }
}

} // verus!
