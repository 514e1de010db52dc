//! Which expressions can be read back from their own text. The text of an
//! expression puts operators first and drops the quotes of strings, so it
//! is in general no source text of the language: `(1)` is written
//! `(group 1.0)`, which is no expression. The literals `true`, `false` and
//! `nil`, names, numbers that the formatter writes as number literals, and
//! assignments of any of these are written as they are read.

use vstd::prelude::*;
use crate::lex::{
    first_error, is_name_part, is_name_start, keyword, lemma_lex_shift, lemma_run_end,
    lemma_tokens_of_parts, lex, lex_from, lexeme_at, number_end, run_end, scan, stops, tokens_of,
    LexingError, LexingErrorKind, Stop, Token,
};
use crate::number::{is_number_lexeme, Text};
use crate::parse::{
    expression_text, lemma_every_operator_binds, lemma_parse_shift, parse_expression, parse_infix,
    parse_prefix, ExpressionTree, Parsed, Primary, ASSIGNMENT_BINDING_POWER,
};

verus! {

/// The tree that is read from a text: the expression at the start of the
/// tokens of the text, where the text has no lexical error.
pub open spec fn read_back(value: spec_fn(Text) -> u64, text: Text) -> Option<
    ExpressionTree<Text>,
> {
    let items = lex(value, text);
    match parse_expression(tokens_of(items), 0, 0).result {
        Ok(tree) => if first_error(items) is None {
            Some(tree)
        } else {
            None
        },
        Err(_) => None,
    }
}

/// A word that is a name: it starts as a name starts, goes on as a name
/// goes on, and is no keyword.
pub open spec fn is_name(word: Text) -> bool {
    &&& word.len() > 0
    &&& is_name_start(word[0])
    &&& forall|i: int| 0 <= i < word.len() ==> is_name_part(#[trigger] word[i])
    &&& keyword(word) is None
}

/// The expressions that are written as they are read: the literals `true`,
/// `false` and `nil`, names, numbers that the formatter writes as a number
/// lexeme which the converter reads as the same number, and assignments of
/// such an expression to a name.
pub open spec fn written_as_read(
    value: spec_fn(Text) -> u64,
    format: spec_fn(u64) -> Text,
    tree: ExpressionTree<Text>,
) -> bool
    decreases tree,
{
    match tree {
        ExpressionTree::Primary(Primary::True) => true,
        ExpressionTree::Primary(Primary::False) => true,
        ExpressionTree::Primary(Primary::Nil) => true,
        ExpressionTree::Primary(Primary::Number(bits)) => is_number_lexeme(format(bits)) && value(
            format(bits),
        ) == bits,
        ExpressionTree::Primary(Primary::Identifier(name)) => is_name(name),
        ExpressionTree::Assignment(name, assigned) => is_name(name) && written_as_read(
            value,
            format,
            *assigned,
        ),
        _ => false,
    }
}

/// A source that is one token and nothing else gives that token.
proof fn lemma_single_token(value: spec_fn(Text) -> u64, source: Text, token: Token<Text>)
    requires
        source.len() > 0,
        source[0] != ' ',
        source[0] != '\t',
        source[0] != '\n',
        source[0] != '/',
        lexeme_at(value, source, 0).item == Ok::<Token<Text>, LexingErrorKind>(token),
        lexeme_at(value, source, 0).end == source.len(),
    ensures
        tokens_of(lex(value, source)) == seq![token],
        first_error(lex(value, source)) is None,
{
    let first = scan(value, source, 0, 1);
    assert(first.item == Some(Ok::<Token<Text>, LexingErrorKind>(token)));
    let rest = lex_from(value, source, source.len(), 1);
    assert(rest =~= Seq::empty());
    let items = lex(value, source);
    assert(items =~= seq![Ok::<Token<Text>, LexingError>(token)]);
    assert(items.drop_first() =~= Seq::empty());
    assert(tokens_of(items) =~= seq![token]) by {
        assert(tokens_of(items.drop_first()) =~= Seq::empty());
    }
    assert(first_error(items.drop_first()) is None);
}

/// The text of `true`, `false` or `nil` is lexed as that one keyword.
proof fn lemma_keyword_literal_is_one_token(value: spec_fn(Text) -> u64, token: Token<Text>)
    requires
        token == Token::<Text>::True || token == Token::<Text>::False || token == Token::<
            Text,
        >::Nil,
    ensures
        ({
            let text = match token {
                Token::True => "true"@,
                Token::False => "false"@,
                _ => "nil"@,
            };
            &&& tokens_of(lex(value, text)) == seq![token]
            &&& first_error(lex(value, text)) is None
        }),
{
    reveal_strlit("and");
    reveal_strlit("class");
    reveal_strlit("else");
    reveal_strlit("false");
    reveal_strlit("for");
    reveal_strlit("fun");
    reveal_strlit("if");
    reveal_strlit("nil");
    reveal_strlit("or");
    reveal_strlit("return");
    reveal_strlit("super");
    reveal_strlit("this");
    reveal_strlit("true");
    let text = match token {
        Token::True => "true"@,
        Token::False => "false"@,
        _ => "nil"@,
    };
    reveal_with_fuel(run_end, 6);
    assert(run_end(text, 1, Stop::NotNamePart) == text.len());
    assert(text.subrange(0, text.len() as int) =~= text);
    assert(keyword(text) == Some(token));
    lemma_single_token(value, text, token);
}

/// A number lexeme is lexed as one number token that takes all of it.
pub proof fn lemma_number_lexeme_is_one_token(value: spec_fn(Text) -> u64, text: Text)
    requires
        is_number_lexeme(text),
    ensures
        tokens_of(lex(value, text)) == seq![Token::Number(value(text), text)],
        first_error(lex(value, text)) is None,
{
    let whole = run_end(text, 1, Stop::NotDigit);
    lemma_run_end(text, 1, Stop::NotDigit);
    if whole < text.len() {
        assert(text[whole as int] == '.');
        lemma_run_end(text, whole + 1, Stop::NotDigit);
        let end = run_end(text, whole + 1, Stop::NotDigit);
        if end < text.len() {
            assert(text[end as int] == '.');
            assert(false);
        }
    }
    assert(number_end(text, 0) == text.len());
    assert(text.subrange(0, text.len() as int) =~= text);
    lemma_single_token(value, text, Token::Number(value(text), text));
}

/// A name is lexed as one identifier that takes all of it.
pub proof fn lemma_name_is_one_token(value: spec_fn(Text) -> u64, name: Text)
    requires
        is_name(name),
    ensures
        tokens_of(lex(value, name)) == seq![Token::Identifier(name)],
        first_error(lex(value, name)) is None,
{
    lemma_run_end(name, 1, Stop::NotNamePart);
    assert(run_end(name, 1, Stop::NotNamePart) == name.len());
    assert(name.subrange(0, name.len() as int) =~= name);
    lemma_single_token(value, name, Token::Identifier(name));
}

/// The text `name = rest` is lexed as the name, the `=`, and what `rest` is
/// lexed as.
proof fn lemma_assignment_head(value: spec_fn(Text) -> u64, name: Text, rest: Text)
    requires
        is_name(name),
    ensures
        lex(value, name + " = "@ + rest) == seq![
            Ok::<Token<Text>, LexingError>(Token::Identifier(name)),
            Ok::<Token<Text>, LexingError>(Token::Equal),
        ] + lex(value, rest),
{
    reveal_strlit(" = ");
    let front = name + " = "@;
    let text = front + rest;
    let n = name.len();
    assert(text.len() == n + 3 + rest.len());
    assert forall|i: int| 0 <= i < n implies text[i] == name[i] by {}
    assert(text[n as int] == ' ');
    assert(text[n + 1 as int] == '=');
    assert(text[n + 2 as int] == ' ');
    // The name, up to the blank behind it.
    lemma_run_end(text, 1, Stop::NotNamePart);
    let end = run_end(text, 1, Stop::NotNamePart);
    assert(end == n) by {
        if end < n {
            assert(is_name_part(name[end as int]));
        }
        if end > n {
            assert(!stops(Stop::NotNamePart, text[n as int]));
        }
    }
    assert(text.subrange(0, n as int) =~= name);
    let first = scan(value, text, 0, 1);
    assert(first.item == Some(Ok::<Token<Text>, LexingErrorKind>(Token::Identifier(name))));
    assert(first.position == n);
    // The `=` between two blanks.
    let second = scan(value, text, n, 1);
    assert(second == scan(value, text, n + 1, 1));
    assert(second.item == Some(Ok::<Token<Text>, LexingErrorKind>(Token::Equal)));
    assert(second.position == n + 2);
    // The rest, behind the second blank.
    let third = scan(value, text, n + 2, 1);
    assert(third == scan(value, text, n + 3, 1));
    lemma_lex_shift(value, front, rest, 0, 1);
    assert(lex_from(value, text, n + 2, 1) == lex_from(value, text, n + 3, 1));
    assert(lex_from(value, text, n + 3, 1) == lex(value, rest));
    assert(lex_from(value, text, n, 1) =~= seq![Ok::<Token<Text>, LexingError>(Token::Equal)]
        + lex(value, rest));
    assert(lex(value, text) =~= seq![
        Ok::<Token<Text>, LexingError>(Token::Identifier(name)),
        Ok::<Token<Text>, LexingError>(Token::Equal),
    ] + lex(value, rest));
}

/// The text of an expression that is written as it is read has no lexical
/// error, and all its tokens together are that expression.
proof fn lemma_reads_back_whole(
    value: spec_fn(Text) -> u64,
    format: spec_fn(u64) -> Text,
    tree: ExpressionTree<Text>,
)
    requires
        written_as_read(value, format, tree),
    ensures
        first_error(lex(value, expression_text(format, tree))) is None,
        parse_expression(tokens_of(lex(value, expression_text(format, tree))), 0, 0) == (Parsed {
            result: Ok(tree),
            position: tokens_of(lex(value, expression_text(format, tree))).len(),
        }),
    decreases tree,
{
    let text = expression_text(format, tree);
    match tree {
        ExpressionTree::Assignment(name, assigned) => {
            let inner = *assigned;
            lemma_reads_back_whole(value, format, inner);
            let rest = expression_text(format, inner);
            lemma_assignment_head(value, name, rest);
            let head: Seq<Result<Token<Text>, LexingError>> = seq![
                Ok(Token::Identifier(name)),
                Ok(Token::Equal),
            ];
            lemma_tokens_of_parts(head, lex(value, rest));
            assert(tokens_of(head) =~= seq![Token::Identifier(name), Token::<Text>::Equal]
                && first_error(head) is None) by {
                reveal_with_fuel(tokens_of, 3);
                reveal_with_fuel(first_error, 3);
                assert(head.drop_first().drop_first() =~= Seq::empty());
            }
            let first = tokens_of(head);
            let second = tokens_of(lex(value, rest));
            let tokens = first + second;
            lemma_every_operator_binds(second, 0, inner);
            lemma_parse_shift(first, second, 0, ASSIGNMENT_BINDING_POWER as int);
            assert(parse_expression(tokens, 2, ASSIGNMENT_BINDING_POWER as int) == (Parsed {
                result: Ok(inner),
                position: tokens.len(),
            }));
            assert(tokens[0] == Token::Identifier(name));
            assert(tokens[1] == Token::<Text>::Equal);
            assert(parse_prefix(tokens, 0) == (Parsed { result: Ok(tree), position: tokens.len() }));
            assert(parse_infix(tokens, tokens.len(), tree, 0) == (Parsed {
                result: Ok(tree),
                position: tokens.len(),
            }));
        },
        ExpressionTree::Primary(Primary::Number(bits)) => {
            lemma_number_lexeme_is_one_token(value, format(bits));
        },
        ExpressionTree::Primary(Primary::Identifier(name)) => {
            lemma_name_is_one_token(value, name);
        },
        ExpressionTree::Primary(Primary::True) => {
            lemma_keyword_literal_is_one_token(value, Token::True);
        },
        ExpressionTree::Primary(Primary::False) => {
            lemma_keyword_literal_is_one_token(value, Token::False);
        },
        _ => {
            lemma_keyword_literal_is_one_token(value, Token::Nil);
        },
    }
}

/// An expression that is written as it is read is read back from its text
/// as the tree it was.
pub proof fn lemma_reads_back(
    value: spec_fn(Text) -> u64,
    format: spec_fn(u64) -> Text,
    tree: ExpressionTree<Text>,
)
    requires
        written_as_read(value, format, tree),
    ensures
        read_back(value, expression_text(format, tree)) == Some(tree),
{
    lemma_reads_back_whole(value, format, tree);
}

} // verus!
