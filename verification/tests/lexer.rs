use lox_interpreter::lex::{tokenize, tokens, Lexer, LexingError, LexingErrorKind, Token};

fn bits(lexeme: String) -> u64 {
    lexeme.parse::<f64>().unwrap().to_bits()
}

fn debug(bits: u64) -> String {
    format!("{:?}", f64::from_bits(bits))
}

fn number(lexeme: &str) -> Token {
    Token::Number(bits(lexeme.to_string()), lexeme.to_string())
}

fn name(text: &str) -> Token {
    Token::Identifier(text.to_string())
}

fn error(kind: LexingErrorKind, line_count: usize) -> Result<Token, LexingError> {
    Err(LexingError { kind, line_count })
}

#[test]
fn punctuation_is_lexed_in_order() {
    assert_eq!(
        tokenize("(){},.-+;*", &bits),
        vec![
            Ok(Token::LeftParen),
            Ok(Token::RightParen),
            Ok(Token::LeftBrace),
            Ok(Token::RightBrace),
            Ok(Token::Comma),
            Ok(Token::Dot),
            Ok(Token::Minus),
            Ok(Token::Plus),
            Ok(Token::Semicolon),
            Ok(Token::Star),
        ]
    );
}

#[test]
fn two_character_operators_take_the_longest_match() {
    assert_eq!(
        tokenize("= == ! != < <= > >= ===", &bits),
        vec![
            Ok(Token::Equal),
            Ok(Token::EqualEqual),
            Ok(Token::Bang),
            Ok(Token::BangEqual),
            Ok(Token::Less),
            Ok(Token::LessEqual),
            Ok(Token::Greater),
            Ok(Token::GreaterEqual),
            Ok(Token::EqualEqual),
            Ok(Token::Equal),
        ]
    );
}

#[test]
fn comments_run_to_the_end_of_the_line() {
    assert_eq!(
        tokenize("1 // two three\n/ 4 //", &bits),
        vec![Ok(number("1")), Ok(Token::Slash), Ok(number("4"))]
    );
}

#[test]
fn blanks_and_tabs_are_skipped() {
    assert_eq!(tokenize(" \t a\t b ", &bits), vec![Ok(name("a")), Ok(name("b"))]);
    assert_eq!(tokenize("", &bits), vec![]);
    assert_eq!(tokenize(" \n\t", &bits), vec![]);
}

#[test]
fn carriage_return_is_no_blank() {
    assert_eq!(
        tokenize("a\r\nb", &bits),
        vec![
            Ok(name("a")),
            error(LexingErrorKind::UnexpectedCharacter('\r'), 1),
            Ok(name("b")),
        ]
    );
}

#[test]
fn string_literal_keeps_what_stands_between_the_quotes() {
    assert_eq!(tokenize("\"abc\"", &bits), vec![Ok(Token::String("abc".to_string()))]);
    assert_eq!(tokenize("\"\"", &bits), vec![Ok(Token::String(String::new()))]);
    assert_eq!(
        tokenize("\"a b\n// c\" d", &bits),
        vec![Ok(Token::String("a b\n// c".to_string())), Ok(name("d"))]
    );
    assert_eq!(tokenize("\"héllo ✓\"", &bits), vec![Ok(Token::String("héllo ✓".to_string()))]);
}

#[test]
fn unterminated_string_takes_the_rest_of_the_source() {
    assert_eq!(
        tokenize("1 \"abc\n2", &bits),
        vec![Ok(number("1")), error(LexingErrorKind::UnterminatedString, 1)]
    );
}

#[test]
fn a_line_feed_inside_a_string_is_not_counted() {
    assert_eq!(
        tokenize("\"a\nb\" @", &bits),
        vec![
            Ok(Token::String("a\nb".to_string())),
            error(LexingErrorKind::UnexpectedCharacter('@'), 1),
        ]
    );
}

#[test]
fn numbers_keep_value_and_lexeme() {
    assert_eq!(tokenize("42", &bits), vec![Ok(Token::Number(42f64.to_bits(), "42".to_string()))]);
    assert_eq!(
        tokenize("3.14", &bits),
        vec![Ok(Token::Number(3.14f64.to_bits(), "3.14".to_string()))]
    );
    assert_eq!(
        tokenize("1.20", &bits),
        vec![Ok(Token::Number(1.2f64.to_bits(), "1.20".to_string()))]
    );
    assert_eq!(tokenize("007", &bits), vec![Ok(Token::Number(7f64.to_bits(), "007".to_string()))]);
}

#[test]
fn second_dot_ends_a_number() {
    assert_eq!(
        tokenize("1.2.3", &bits),
        vec![Ok(number("1.2")), Ok(Token::Dot), Ok(number("3"))]
    );
}

#[test]
fn a_dot_behind_the_digits_belongs_to_the_number() {
    assert_eq!(tokenize("1.", &bits), vec![Ok(Token::Number(1f64.to_bits(), "1.".to_string()))]);
    assert_eq!(
        tokenize("1.a", &bits),
        vec![Ok(Token::Number(1f64.to_bits(), "1.".to_string())), Ok(name("a"))]
    );
    assert_eq!(tokenize(".5", &bits), vec![Ok(Token::Dot), Ok(number("5"))]);
}

#[test]
fn keywords_are_not_identifiers() {
    let source = "and class else false for fun if nil or return super this true var while print";
    assert_eq!(
        tokenize(source, &bits),
        vec![
            Ok(Token::And),
            Ok(Token::Class),
            Ok(Token::Else),
            Ok(Token::False),
            Ok(Token::For),
            Ok(Token::Fun),
            Ok(Token::If),
            Ok(Token::Nil),
            Ok(Token::Or),
            Ok(Token::Return),
            Ok(Token::Super),
            Ok(Token::This),
            Ok(Token::True),
            Ok(Token::Var),
            Ok(Token::While),
            Ok(Token::Print),
        ]
    );
}

#[test]
fn identifiers_are_whole_words() {
    assert_eq!(
        tokenize("printer _var var_ Print x1 nil2 a_b_9", &bits),
        vec![
            Ok(name("printer")),
            Ok(name("_var")),
            Ok(name("var_")),
            Ok(name("Print")),
            Ok(name("x1")),
            Ok(name("nil2")),
            Ok(name("a_b_9")),
        ]
    );
}

#[test]
fn a_digit_starts_a_number_not_a_name() {
    assert_eq!(tokenize("1a", &bits), vec![Ok(number("1")), Ok(name("a"))]);
}

#[test]
fn errors_carry_their_line() {
    assert_eq!(
        tokenize("a\n@ \n\n#\"open", &bits),
        vec![
            Ok(name("a")),
            error(LexingErrorKind::UnexpectedCharacter('@'), 2),
            error(LexingErrorKind::UnexpectedCharacter('#'), 4),
            error(LexingErrorKind::UnterminatedString, 4),
        ]
    );
}

#[test]
fn lexing_goes_on_behind_an_error() {
    assert_eq!(
        tokenize("$(é)", &bits),
        vec![
            error(LexingErrorKind::UnexpectedCharacter('$'), 1),
            Ok(Token::LeftParen),
            error(LexingErrorKind::UnexpectedCharacter('é'), 1),
            Ok(Token::RightParen),
        ]
    );
}

#[test]
fn next_gives_one_token_at_a_time() {
    let mut lexer = Lexer::new("var a;");
    assert_eq!(lexer.next(&bits), Some(Ok(Token::Var)));
    assert_eq!(lexer.next(&bits), Some(Ok(name("a"))));
    assert_eq!(lexer.next(&bits), Some(Ok(Token::Semicolon)));
    assert_eq!(lexer.next(&bits), None);
    assert_eq!(lexer.next(&bits), None);
}

#[test]
fn lexing_twice_gives_the_same() {
    let source = "var a = 1.5; // note\n{ print a + \"x\"; } @";
    assert_eq!(tokenize(source, &bits), tokenize(source, &bits));
}

#[test]
fn tokens_stop_at_the_first_error() {
    assert_eq!(tokens("1 + 2", &bits), Ok(vec![number("1"), Token::Plus, number("2")]));
    assert_eq!(
        tokens("1 @ \"open", &bits),
        Err(LexingError { kind: LexingErrorKind::UnexpectedCharacter('@'), line_count: 1 })
    );
    assert_eq!(tokens("", &bits), Ok(vec![]));
}

#[test]
fn token_lines_have_kind_lexeme_and_value() {
    assert_eq!(Token::LeftParen.to_text(&debug), "LEFT_PAREN ( null");
    assert_eq!(Token::RightBrace.to_text(&debug), "RIGHT_BRACE } null");
    assert_eq!(Token::BangEqual.to_text(&debug), "BANG_EQUAL != null");
    assert_eq!(Token::And.to_text(&debug), "AND and null");
    assert_eq!(Token::Print.to_text(&debug), "PRINT print null");
    assert_eq!(Token::String("abc".to_string()).to_text(&debug), "STRING \"abc\" abc");
    assert_eq!(name("foo").to_text(&debug), "IDENTIFIER foo null");
    assert_eq!(number("42").to_text(&debug), "NUMBER 42 42.0");
    assert_eq!(number("3.14").to_text(&debug), "NUMBER 3.14 3.14");
    assert_eq!(number("1.20").to_text(&debug), "NUMBER 1.20 1.2");
}

#[test]
fn every_token_has_its_line() {
    let listed: Vec<String> = tokenize(
        "( ) { } , . - + ; * == = != ! <= < >= > / and class else false for fun if nil or return \
         super this true var while print",
        &bits,
    )
    .into_iter()
    .map(|item| item.unwrap().to_text(&debug))
    .collect();
    assert_eq!(
        listed,
        vec![
            "LEFT_PAREN ( null",
            "RIGHT_PAREN ) null",
            "LEFT_BRACE { null",
            "RIGHT_BRACE } null",
            "COMMA , null",
            "DOT . null",
            "MINUS - null",
            "PLUS + null",
            "SEMICOLON ; null",
            "STAR * null",
            "EQUAL_EQUAL == null",
            "EQUAL = null",
            "BANG_EQUAL != null",
            "BANG ! null",
            "LESS_EQUAL <= null",
            "LESS < null",
            "GREATER_EQUAL >= null",
            "GREATER > null",
            "SLASH / null",
            "AND and null",
            "CLASS class null",
            "ELSE else null",
            "FALSE false null",
            "FOR for null",
            "FUN fun null",
            "IF if null",
            "NIL nil null",
            "OR or null",
            "RETURN return null",
            "SUPER super null",
            "THIS this null",
            "TRUE true null",
            "VAR var null",
            "WHILE while null",
            "PRINT print null",
        ]
    );
}

#[test]
fn lexing_error_messages() {
    let unterminated = LexingError { kind: LexingErrorKind::UnterminatedString, line_count: 3 };
    assert_eq!(unterminated.to_text(), "[line 3] Error: Unterminated string.");
    let unexpected =
        LexingError { kind: LexingErrorKind::UnexpectedCharacter('$'), line_count: 120 };
    assert_eq!(unexpected.to_text(), "[line 120] Error: Unexpected character: $");
    let first = LexingError { kind: LexingErrorKind::UnexpectedCharacter('é'), line_count: 1 };
    assert_eq!(first.to_text(), "[line 1] Error: Unexpected character: é");
}
