use lox_interpreter::lex::{tokens, Token};
use lox_interpreter::parse::{
    parse_expr, parse_statement, parse_statements, Comparison, Equality, ExpressionTree, Factor,
    ParseExpressionError, Primary, StatementTree, Term, TokenStream, Unary,
};

fn bits(lexeme: String) -> u64 {
    lexeme.parse::<f64>().unwrap().to_bits()
}

fn debug(bits: u64) -> String {
    format!("{:?}", f64::from_bits(bits))
}

fn stream(source: &str) -> TokenStream {
    TokenStream::new(tokens(source, &bits).unwrap())
}

fn expression(source: &str) -> Result<ExpressionTree, ParseExpressionError> {
    parse_expr(&mut stream(source), 0)
}

fn program(source: &str) -> Result<Vec<StatementTree>, ParseExpressionError> {
    parse_statements(&mut stream(source))
}

fn text(source: &str) -> String {
    expression(source).unwrap().to_text(&debug)
}

fn num(value: f64) -> ExpressionTree {
    ExpressionTree::Primary(Primary::Number(value.to_bits()))
}

fn var(name: &str) -> ExpressionTree {
    ExpressionTree::Primary(Primary::Identifier(name.to_string()))
}

fn string(content: &str) -> ExpressionTree {
    ExpressionTree::Primary(Primary::String(content.to_string()))
}

fn group(inner: ExpressionTree) -> ExpressionTree {
    ExpressionTree::Primary(Primary::Group(Box::new(inner)))
}

fn plus(lhs: ExpressionTree, rhs: ExpressionTree) -> ExpressionTree {
    ExpressionTree::Term(Term::Plus(Box::new(lhs), Box::new(rhs)))
}

fn minus(lhs: ExpressionTree, rhs: ExpressionTree) -> ExpressionTree {
    ExpressionTree::Term(Term::Minus(Box::new(lhs), Box::new(rhs)))
}

fn star(lhs: ExpressionTree, rhs: ExpressionTree) -> ExpressionTree {
    ExpressionTree::Factor(Factor::Star(Box::new(lhs), Box::new(rhs)))
}

fn slash(lhs: ExpressionTree, rhs: ExpressionTree) -> ExpressionTree {
    ExpressionTree::Factor(Factor::Slash(Box::new(lhs), Box::new(rhs)))
}

fn less(lhs: ExpressionTree, rhs: ExpressionTree) -> ExpressionTree {
    ExpressionTree::Comparison(Comparison::Less(Box::new(lhs), Box::new(rhs)))
}

fn equal(lhs: ExpressionTree, rhs: ExpressionTree) -> ExpressionTree {
    ExpressionTree::Equality(Equality::EqualEqual(Box::new(lhs), Box::new(rhs)))
}

fn assign(name: &str, value: ExpressionTree) -> ExpressionTree {
    ExpressionTree::Assignment(name.to_string(), Box::new(value))
}

#[test]
fn literals_parse_to_primaries() {
    assert_eq!(expression("nil"), Ok(ExpressionTree::Primary(Primary::Nil)));
    assert_eq!(expression("true"), Ok(ExpressionTree::Primary(Primary::True)));
    assert_eq!(expression("false"), Ok(ExpressionTree::Primary(Primary::False)));
    assert_eq!(expression("12.5"), Ok(num(12.5)));
    assert_eq!(expression("\"hi\""), Ok(string("hi")));
    assert_eq!(expression("x"), Ok(var("x")));
}

#[test]
fn empty_token_stream_is_nil() {
    assert_eq!(expression(""), Ok(ExpressionTree::Primary(Primary::Nil)));
    assert_eq!(expression("// nothing here"), Ok(ExpressionTree::Primary(Primary::Nil)));
}

#[test]
fn missing_operand_at_the_end_is_nil() {
    assert_eq!(expression("1 +"), Ok(plus(num(1.0), ExpressionTree::Primary(Primary::Nil))));
    assert_eq!(
        expression("-"),
        Ok(ExpressionTree::Unary(Unary::Minus(Box::new(ExpressionTree::Primary(Primary::Nil)))))
    );
}

#[test]
fn tighter_operator_takes_its_operands_first() {
    assert_eq!(expression("1 + 2 * 3"), Ok(plus(num(1.0), star(num(2.0), num(3.0)))));
    assert_eq!(expression("1 * 2 + 3"), Ok(plus(star(num(1.0), num(2.0)), num(3.0))));
    assert_eq!(expression("a == b < c"), Ok(equal(var("a"), less(var("b"), var("c")))));
    assert_eq!(expression("a < b + c"), Ok(less(var("a"), plus(var("b"), var("c")))));
    assert_eq!(
        expression("1 == 2 < 3 + 4 * 5"),
        Ok(equal(num(1.0), less(num(2.0), plus(num(3.0), star(num(4.0), num(5.0))))))
    );
}

#[test]
fn operators_of_one_level_group_from_the_left() {
    assert_eq!(expression("a - b - c"), Ok(minus(minus(var("a"), var("b")), var("c"))));
    assert_eq!(expression("a / b / c"), Ok(slash(slash(var("a"), var("b")), var("c"))));
    assert_eq!(expression("a * b / c"), Ok(slash(star(var("a"), var("b")), var("c"))));
    assert_eq!(expression("a + b - c"), Ok(minus(plus(var("a"), var("b")), var("c"))));
    assert_eq!(text("1 < 2 <= 3 > 4 >= 5"), "(>= (> (<= (< 1.0 2.0) 3.0) 4.0) 5.0)");
    assert_eq!(text("1 == 2 != 3 == 4"), "(== (!= (== 1.0 2.0) 3.0) 4.0)");
}

#[test]
fn assignment_groups_from_the_right() {
    assert_eq!(expression("x = y = 3"), Ok(assign("x", assign("y", num(3.0)))));
    assert_eq!(expression("a = 1 + 2"), Ok(assign("a", plus(num(1.0), num(2.0)))));
    assert_eq!(expression("a = b == c"), Ok(assign("a", equal(var("b"), var("c")))));
}

#[test]
fn assignment_after_an_operator_takes_the_rest() {
    assert_eq!(expression("1 + a = 2 * 3"), Ok(plus(num(1.0), assign("a", star(num(2.0), num(3.0))))));
}

#[test]
fn prefix_operators_bind_tightest() {
    assert_eq!(text("-1 * 2"), "(* (- 1.0) 2.0)");
    assert_eq!(text("!true == false"), "(== (! true) false)");
    assert_eq!(text("--1"), "(- (- 1.0))");
    assert_eq!(text("!-a"), "(! (- a))");
    assert_eq!(text("1 - -2"), "(- 1.0 (- 2.0))");
}

#[test]
fn parentheses_group() {
    assert_eq!(expression("(1 + 2) * 3"), Ok(star(group(plus(num(1.0), num(2.0))), num(3.0))));
    assert_eq!(text("((1))"), "(group (group 1.0))");
    assert_eq!(expression("()"), Err(ParseExpressionError::InvalidToken(Token::RightParen)));
}

#[test]
fn missing_right_paren_is_an_error() {
    assert_eq!(expression("(1 + 2"), Err(ParseExpressionError::MissingRightParen));
    assert_eq!(expression("(1 + 2 3)"), Err(ParseExpressionError::MissingRightParen));
    assert_eq!(expression("(1 + 2;"), Err(ParseExpressionError::MissingRightParen));
}

#[test]
fn a_token_that_starts_no_expression_is_invalid() {
    assert_eq!(expression("*"), Err(ParseExpressionError::InvalidToken(Token::Star)));
    assert_eq!(expression("1 + )"), Err(ParseExpressionError::InvalidToken(Token::RightParen)));
    assert_eq!(expression("var"), Err(ParseExpressionError::InvalidToken(Token::Var)));
    assert_eq!(expression("print"), Err(ParseExpressionError::InvalidToken(Token::Print)));
    assert_eq!(expression("= 1"), Err(ParseExpressionError::InvalidToken(Token::Equal)));
}

#[test]
fn an_expression_ends_before_what_is_no_operator() {
    let mut tokens = stream("1 + 2 3");
    assert_eq!(parse_expr(&mut tokens, 0), Ok(plus(num(1.0), num(2.0))));
    assert_eq!(tokens.peek(), Some(&Token::Number(3f64.to_bits(), "3".to_string())));
    let mut tokens = stream("a ; b");
    assert_eq!(parse_expr(&mut tokens, 0), Ok(var("a")));
    assert_eq!(tokens.next(), Some(Token::Semicolon));
}

#[test]
fn min_binding_power_stops_weaker_operators() {
    let mut tokens = stream("1 * 2 + 3");
    assert_eq!(parse_expr(&mut tokens, 4), Ok(star(num(1.0), num(2.0))));
    assert_eq!(tokens.peek(), Some(&Token::Plus));
    let mut tokens = stream("1 + 2");
    assert_eq!(parse_expr(&mut tokens, 5), Ok(num(1.0)));
    assert_eq!(tokens.peek(), Some(&Token::Plus));
}

#[test]
fn expression_text_puts_operators_first() {
    assert_eq!(text("1 + 2 * 3"), "(+ 1.0 (* 2.0 3.0))");
    assert_eq!(text("(1 + 2) / 4.50"), "(/ (group (+ 1.0 2.0)) 4.5)");
    assert_eq!(text("\"foo\" + \"bar\""), "(+ foo bar)");
    assert_eq!(text("nil"), "nil");
    assert_eq!(text("true"), "true");
    assert_eq!(text("false"), "false");
    assert_eq!(text("42"), "42.0");
    assert_eq!(text("3.14"), "3.14");
    assert_eq!(text("1 <= 2"), "(<= 1.0 2.0)");
    assert_eq!(text("1 >= 2"), "(>= 1.0 2.0)");
    assert_eq!(text("1 > 2"), "(> 1.0 2.0)");
    assert_eq!(text("1 != 2"), "(!= 1.0 2.0)");
    assert_eq!(text("a = b - 1"), "a = (- b 1.0)");
}

#[test]
fn keyword_literals_read_back_from_their_text() {
    for source in ["nil", "true", "false"] {
        let tree = expression(source).unwrap();
        assert_eq!(expression(&tree.to_text(&debug)), Ok(tree));
    }
}

#[test]
fn numbers_and_names_read_back_from_their_text() {
    for source in [
        "42",
        "3.14",
        "1.20",
        "0",
        "123456789.125",
        "x",
        "_tmp1",
        "printer",
        "a = 1",
        "a = b = 42",
        "x = y = z = nil",
        "flag = true",
    ] {
        let tree = expression(source).unwrap();
        assert_eq!(expression(&tree.to_text(&debug)), Ok(tree), "{source}");
    }
    assert_eq!(text("42"), "42.0");
    assert_eq!(expression("42.0"), Ok(num(42.0)));
}

#[test]
fn operators_and_strings_do_not_read_back_from_their_text() {
    assert_eq!(text("(1)"), "(group 1.0)");
    assert_eq!(expression("(group 1.0)"), Err(ParseExpressionError::MissingRightParen));
    assert_eq!(text("1 + 2"), "(+ 1.0 2.0)");
    assert_eq!(expression("(+ 1.0 2.0)"), Err(ParseExpressionError::InvalidToken(Token::Plus)));
    assert_eq!(text("\"a\""), "a");
    assert_eq!(expression("a"), Ok(var("a")));
}

#[test]
fn statements_parse() {
    assert_eq!(
        program("print 1; a; var b; var c = 2; { a = b; }"),
        Ok(vec![
            StatementTree::Print(num(1.0)),
            StatementTree::Expr(var("a")),
            StatementTree::VarDeclaration { ident: "b".to_string(), expr: None },
            StatementTree::VarDeclaration { ident: "c".to_string(), expr: Some(num(2.0)) },
            StatementTree::Block(vec![StatementTree::Expr(assign("a", var("b")))]),
        ])
    );
    assert_eq!(program(""), Ok(vec![]));
}

#[test]
fn blocks_nest() {
    assert_eq!(
        program("{ { } { print 1; } }"),
        Ok(vec![StatementTree::Block(vec![
            StatementTree::Block(vec![]),
            StatementTree::Block(vec![StatementTree::Print(num(1.0))]),
        ])])
    );
    assert_eq!(program("{}"), Ok(vec![StatementTree::Block(vec![])]));
}

#[test]
fn missing_right_brace_is_an_error() {
    assert_eq!(program("{ print 1;"), Err(ParseExpressionError::MissingRightBrace));
    assert_eq!(program("{"), Err(ParseExpressionError::MissingRightBrace));
    assert_eq!(program("{ { }"), Err(ParseExpressionError::MissingRightBrace));
}

#[test]
fn right_brace_outside_a_block_is_an_error() {
    assert_eq!(program("}"), Err(ParseExpressionError::InvalidToken(Token::RightBrace)));
    assert_eq!(program("print 1; }"), Err(ParseExpressionError::InvalidToken(Token::RightBrace)));
}

#[test]
fn missing_semicolon_is_an_error() {
    assert_eq!(program("print 1"), Err(ParseExpressionError::ExpectedSemicolon));
    assert_eq!(program("print 1 2;"), Err(ParseExpressionError::ExpectedSemicolon));
    assert_eq!(program("a = 1 }"), Err(ParseExpressionError::ExpectedSemicolon));
    assert_eq!(program("var a"), Err(ParseExpressionError::ExpectedSemicolon));
    assert_eq!(program("var a = 1"), Err(ParseExpressionError::ExpectedSemicolon));
    assert_eq!(program("var a 1;"), Err(ParseExpressionError::ExpectedSemicolon));
}

#[test]
fn var_needs_a_name() {
    assert_eq!(program("var 1;"), Err(ParseExpressionError::ExpectedIdentifier));
    assert_eq!(program("var"), Err(ParseExpressionError::ExpectedIdentifier));
    assert_eq!(program("var = 1;"), Err(ParseExpressionError::ExpectedIdentifier));
}

#[test]
fn print_and_var_cannot_be_names() {
    assert_eq!(program("var print = 1;"), Err(ParseExpressionError::ExpectedIdentifier));
    assert_eq!(program("var var = 1;"), Err(ParseExpressionError::ExpectedIdentifier));
    assert_eq!(program("print = 1;"), Err(ParseExpressionError::InvalidToken(Token::Equal)));
    assert_eq!(program("var = 2;"), Err(ParseExpressionError::ExpectedIdentifier));
}

#[test]
fn an_error_ends_the_program() {
    assert_eq!(
        program("print 1; print *; print 2;"),
        Err(ParseExpressionError::InvalidToken(Token::Star))
    );
    assert_eq!(program("{ print (1; }"), Err(ParseExpressionError::MissingRightParen));
}

#[test]
fn parse_statement_gives_one_statement_at_a_time() {
    let mut tokens = stream("print 1; x;");
    assert_eq!(parse_statement(&mut tokens), Ok(Some(StatementTree::Print(num(1.0)))));
    assert_eq!(parse_statement(&mut tokens), Ok(Some(StatementTree::Expr(var("x")))));
    assert_eq!(parse_statement(&mut tokens), Ok(None));
    assert_eq!(parse_statement(&mut tokens), Ok(None));
}

#[test]
fn parse_error_messages() {
    let invalid: ParseExpressionError = ParseExpressionError::InvalidToken(Token::Star);
    assert_eq!(invalid.to_text(&debug), "invalid token: STAR * null");
    let paren: ParseExpressionError = ParseExpressionError::MissingRightParen;
    assert_eq!(paren.to_text(&debug), "missing right paren");
    let brace: ParseExpressionError = ParseExpressionError::MissingRightBrace;
    assert_eq!(brace.to_text(&debug), "missing right brace");
    let semicolon: ParseExpressionError = ParseExpressionError::ExpectedSemicolon;
    assert_eq!(semicolon.to_text(&debug), "expected semicolon");
    let identifier: ParseExpressionError = ParseExpressionError::ExpectedIdentifier;
    assert_eq!(identifier.to_text(&debug), "expected identifier");
}
