//! What the expression parser does with operators that meet: the one that
//! binds tighter takes its operands first, operators that bind alike group
//! from the left, and assignments group from the right.

use vstd::prelude::*;
use crate::lex::Token;
use crate::number::Text;
use crate::parse::{
    binary, binding_power, infix_operator, lemma_parse_advances, lemma_prefix_advances,
    parse_expression, parse_infix, parse_prefix, remaining, token_at, BinaryOp, ExpressionTree,
    Parsed, Primary, ASSIGNMENT_BINDING_POWER,
};

verus! {

/// The operand `tree` stands in the tokens from `position` up to `end`: a
/// literal, a name, an assignment, a parenthesized expression, or a prefix
/// operator with its operand.
pub open spec fn operand_at(
    tokens: Seq<Token<Text>>,
    position: nat,
    tree: ExpressionTree<Text>,
    end: nat,
) -> bool {
    parse_prefix(tokens, position) == (Parsed { result: Ok(tree), position: end })
}

/// The infix operator `op` stands at `position`.
pub open spec fn operator_at(tokens: Seq<Token<Text>>, position: nat, op: BinaryOp) -> bool {
    match token_at(tokens, position) {
        Some(token) => infix_operator(token) == Some(op),
        None => false,
    }
}

/// An expression whose operators bind tighter than `min_bp` cannot go on at
/// `position`: the tokens end there, or what stands there is no infix
/// operator, or one that binds no tighter than `min_bp`.
pub open spec fn ends_at(tokens: Seq<Token<Text>>, position: nat, min_bp: int) -> bool {
    match token_at(tokens, position) {
        None => true,
        Some(token) => match infix_operator(token) {
            None => true,
            Some(op) => binding_power(op) <= min_bp,
        },
    }
}

/// The operand that a token is by itself: a literal or a name.
pub open spec fn atom(token: Token<Text>) -> Option<ExpressionTree<Text>> {
    match token {
        Token::Nil => Some(ExpressionTree::Primary(Primary::Nil)),
        Token::True => Some(ExpressionTree::Primary(Primary::True)),
        Token::False => Some(ExpressionTree::Primary(Primary::False)),
        Token::Number(bits, _) => Some(ExpressionTree::Primary(Primary::Number(bits))),
        Token::String(text) => Some(ExpressionTree::Primary(Primary::String(text))),
        Token::Identifier(name) => Some(ExpressionTree::Primary(Primary::Identifier(name))),
        _ => None,
    }
}

/// A token that is an operand by itself stands as that operand, unless it
/// is a name with a `=` behind it.
pub proof fn lemma_atom(tokens: Seq<Token<Text>>, position: nat)
    requires
        position < tokens.len(),
        atom(tokens[position as int]) is Some,
        token_at(tokens, position + 1) != Some(Token::<Text>::Equal),
    ensures
        operand_at(tokens, position, atom(tokens[position as int])->0, position + 1),
{
}

/// An expression ends where it cannot go on.
pub proof fn lemma_expression_ends(tokens: Seq<Token<Text>>, position: nat, min_bp: int)
    ensures
        parse_expression(tokens, position, min_bp).result is Ok ==> ends_at(
            tokens,
            parse_expression(tokens, position, min_bp).position,
            min_bp,
        ),
{
    let prefix = parse_prefix(tokens, position);
    lemma_prefix_advances(tokens, position);
    if let Ok(lhs) = prefix.result {
        lemma_infix_ends(tokens, prefix.position, lhs, min_bp);
    }
}

/// Extending an operand to the right ends where it cannot go on.
proof fn lemma_infix_ends(
    tokens: Seq<Token<Text>>,
    position: nat,
    lhs: ExpressionTree<Text>,
    min_bp: int,
)
    ensures
        parse_infix(tokens, position, lhs, min_bp).result is Ok ==> ends_at(
            tokens,
            parse_infix(tokens, position, lhs, min_bp).position,
            min_bp,
        ),
    decreases remaining(tokens, position),
{
    if let Some(token) = token_at(tokens, position) {
        if let Some(op) = infix_operator(token) {
            if binding_power(op) > min_bp {
                let rhs = parse_expression(tokens, position + 1, binding_power(op));
                lemma_parse_advances(tokens, position + 1, binding_power(op));
                if let Ok(right) = rhs.result {
                    lemma_infix_ends(tokens, rhs.position, binary(op, lhs, right), min_bp);
                }
            }
        }
    }
}

/// Precedence: in `a OP1 b OP2 c`, where `OP2` binds tighter than `OP1`, the
/// operands of `OP2` are `b` and `c`, and the right operand of `OP1` is what
/// `OP2` makes of them: the whole is `a OP1 (b OP2 c)`.
pub proof fn lemma_tighter_operator_first(
    tokens: Seq<Token<Text>>,
    start: nat,
    min_bp: int,
    a: ExpressionTree<Text>,
    first: nat,
    op1: BinaryOp,
    b: ExpressionTree<Text>,
    second: nat,
    op2: BinaryOp,
    c: ExpressionTree<Text>,
    end: nat,
)
    requires
        operand_at(tokens, start, a, first),
        operator_at(tokens, first, op1),
        operand_at(tokens, first + 1, b, second),
        operator_at(tokens, second, op2),
        operand_at(tokens, second + 1, c, end),
        ends_at(tokens, end, min_bp),
        min_bp < binding_power(op1) < binding_power(op2),
    ensures
        parse_expression(tokens, start, min_bp) == (Parsed {
            result: Ok(binary(op1, a, binary(op2, b, c))),
            position: end,
        }),
{
    let inner = binary(op2, b, c);
    lemma_prefix_advances(tokens, start);
    lemma_prefix_advances(tokens, first + 1);
    lemma_prefix_advances(tokens, second + 1);
    // OP2 takes `c` and stops.
    assert(parse_infix(tokens, end, c, binding_power(op2)) == (Parsed {
        result: Ok(c),
        position: end,
    }));
    assert(parse_expression(tokens, second + 1, binding_power(op2)) == (Parsed {
        result: Ok(c),
        position: end,
    }));
    // OP1 takes `b OP2 c` and stops.
    assert(parse_infix(tokens, end, inner, binding_power(op1)) == (Parsed {
        result: Ok(inner),
        position: end,
    }));
    assert(parse_infix(tokens, second, b, binding_power(op1)) == (Parsed {
        result: Ok(inner),
        position: end,
    }));
    assert(parse_expression(tokens, first + 1, binding_power(op1)) == (Parsed {
        result: Ok(inner),
        position: end,
    }));
    assert(parse_infix(tokens, end, binary(op1, a, inner), min_bp) == (Parsed {
        result: Ok(binary(op1, a, inner)),
        position: end,
    }));
    assert(parse_infix(tokens, first, a, min_bp) == (Parsed {
        result: Ok(binary(op1, a, inner)),
        position: end,
    }));
}

/// Left associativity: in `a OP1 b OP2 c`, where `OP2` binds no tighter than
/// `OP1`, the operands of `OP1` are `a` and `b`, and the left operand of
/// `OP2` is what `OP1` makes of them: the whole is `(a OP1 b) OP2 c`. So
/// `a - b - c` is `(a - b) - c`, and likewise for every other infix
/// operator and for any two of one level.
pub proof fn lemma_left_associative(
    tokens: Seq<Token<Text>>,
    start: nat,
    min_bp: int,
    a: ExpressionTree<Text>,
    first: nat,
    op1: BinaryOp,
    b: ExpressionTree<Text>,
    second: nat,
    op2: BinaryOp,
    c: ExpressionTree<Text>,
    end: nat,
)
    requires
        operand_at(tokens, start, a, first),
        operator_at(tokens, first, op1),
        operand_at(tokens, first + 1, b, second),
        operator_at(tokens, second, op2),
        operand_at(tokens, second + 1, c, end),
        ends_at(tokens, end, min_bp),
        min_bp < binding_power(op2) <= binding_power(op1),
    ensures
        parse_expression(tokens, start, min_bp) == (Parsed {
            result: Ok(binary(op2, binary(op1, a, b), c)),
            position: end,
        }),
{
    let inner = binary(op1, a, b);
    let whole = binary(op2, inner, c);
    lemma_prefix_advances(tokens, start);
    lemma_prefix_advances(tokens, first + 1);
    lemma_prefix_advances(tokens, second + 1);
    // OP1 takes `b` and stops before OP2.
    assert(parse_infix(tokens, second, b, binding_power(op1)) == (Parsed {
        result: Ok(b),
        position: second,
    }));
    assert(parse_expression(tokens, first + 1, binding_power(op1)) == (Parsed {
        result: Ok(b),
        position: second,
    }));
    // OP2 takes `c` and stops.
    assert(parse_infix(tokens, end, c, binding_power(op2)) == (Parsed {
        result: Ok(c),
        position: end,
    }));
    assert(parse_expression(tokens, second + 1, binding_power(op2)) == (Parsed {
        result: Ok(c),
        position: end,
    }));
    assert(parse_infix(tokens, end, whole, min_bp) == (Parsed { result: Ok(whole), position: end }));
    assert(parse_infix(tokens, second, inner, min_bp) == (Parsed {
        result: Ok(whole),
        position: end,
    }));
    assert(parse_infix(tokens, first, a, min_bp) == (Parsed { result: Ok(whole), position: end }));
}

/// Assignment is right-associative: `a = b = c` assigns to `a` what the
/// assignment `b = c` gives, whatever expression `c` is.
pub proof fn lemma_assignment_right_associative(
    tokens: Seq<Token<Text>>,
    start: nat,
    a: Text,
    b: Text,
    c: ExpressionTree<Text>,
    end: nat,
)
    requires
        token_at(tokens, start) == Some(Token::Identifier(a)),
        token_at(tokens, start + 1) == Some(Token::<Text>::Equal),
        token_at(tokens, start + 2) == Some(Token::Identifier(b)),
        token_at(tokens, start + 3) == Some(Token::<Text>::Equal),
        parse_expression(tokens, start + 4, ASSIGNMENT_BINDING_POWER as int) == (Parsed {
            result: Ok(c),
            position: end,
        }),
    ensures
        operand_at(
            tokens,
            start,
            ExpressionTree::Assignment(a, Box::new(ExpressionTree::Assignment(b, Box::new(c)))),
            end,
        ),
{
    let inner = ExpressionTree::Assignment(b, Box::new(c));
    lemma_expression_ends(tokens, start + 4, ASSIGNMENT_BINDING_POWER as int);
    lemma_parse_advances(tokens, start + 4, ASSIGNMENT_BINDING_POWER as int);
    assert(parse_prefix(tokens, start + 2) == (Parsed { result: Ok(inner), position: end }));
    assert(parse_infix(tokens, end, inner, ASSIGNMENT_BINDING_POWER as int) == (Parsed {
        result: Ok(inner),
        position: end,
    }));
    assert(parse_expression(tokens, start + 2, ASSIGNMENT_BINDING_POWER as int) == (Parsed {
        result: Ok(inner),
        position: end,
    }));
}

} // verus!
