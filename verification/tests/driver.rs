use lox_interpreter::driver::{evaluate, parse, run, tokenize, Report};
use lox_interpreter::number::Arithmetic;

fn bits(lexeme: String) -> u64 {
    lexeme.parse::<f64>().unwrap().to_bits()
}

fn arith(request: Arithmetic) -> u64 {
    match request {
        Arithmetic::Add(a, b) => (f64::from_bits(a) + f64::from_bits(b)).to_bits(),
        Arithmetic::Subtract(a, b) => (f64::from_bits(a) - f64::from_bits(b)).to_bits(),
        Arithmetic::Multiply(a, b) => (f64::from_bits(a) * f64::from_bits(b)).to_bits(),
        Arithmetic::Divide(a, b) => (f64::from_bits(a) / f64::from_bits(b)).to_bits(),
    }
}

fn debug(bits: u64) -> String {
    format!("{:?}", f64::from_bits(bits))
}

fn display(bits: u64) -> String {
    format!("{}", f64::from_bits(bits))
}

fn expect(report: Report, stdout: &[&str], stderr: &[&str], exit_code: i32) {
    assert_eq!(report.stdout, stdout);
    assert_eq!(report.stderr, stderr);
    assert_eq!(report.exit_code, exit_code);
}

fn ran(source: &str) -> Report {
    run(source, &bits, &arith, &display)
}

#[test]
fn tokenize_lists_punctuation() {
    expect(
        tokenize("(){},.-+;*", &bits, &debug),
        &[
            "LEFT_PAREN ( null",
            "RIGHT_PAREN ) null",
            "LEFT_BRACE { null",
            "RIGHT_BRACE } null",
            "COMMA , null",
            "DOT . null",
            "MINUS - null",
            "PLUS + null",
            "SEMICOLON ; null",
            "STAR * null",
            "EOF  null",
        ],
        &[],
        0,
    );
}

#[test]
fn tokenize_lists_a_string() {
    expect(tokenize("\"abc\"", &bits, &debug), &["STRING \"abc\" abc", "EOF  null"], &[], 0);
}

#[test]
fn tokenize_lists_numbers() {
    expect(tokenize("42", &bits, &debug), &["NUMBER 42 42.0", "EOF  null"], &[], 0);
    expect(tokenize("3.14", &bits, &debug), &["NUMBER 3.14 3.14", "EOF  null"], &[], 0);
    expect(tokenize("1.20", &bits, &debug), &["NUMBER 1.20 1.2", "EOF  null"], &[], 0);
    expect(
        tokenize("1.2.3", &bits, &debug),
        &["NUMBER 1.2 1.2", "DOT . null", "NUMBER 3 3.0", "EOF  null"],
        &[],
        0,
    );
}

#[test]
fn tokenize_always_ends_with_the_end_of_the_file() {
    for source in ["", "   \n", "// only a comment", "@", "\"open", "var a = 1;", "1 +\n2 $"] {
        let report = tokenize(source, &bits, &debug);
        assert_eq!(report.stdout.last().map(String::as_str), Some("EOF  null"), "{source:?}");
        let again = tokenize(source, &bits, &debug);
        assert_eq!(report.stdout, again.stdout);
        assert_eq!(report.stderr, again.stderr);
        assert_eq!(report.exit_code, again.exit_code);
    }
    expect(tokenize("", &bits, &debug), &["EOF  null"], &[], 0);
}

#[test]
fn tokenize_reports_every_error_and_goes_on() {
    expect(
        tokenize(",.$(#\n\"open", &bits, &debug),
        &["COMMA , null", "DOT . null", "LEFT_PAREN ( null", "EOF  null"],
        &[
            "[line 1] Error: Unexpected character: $",
            "[line 1] Error: Unexpected character: #",
            "[line 2] Error: Unterminated string.",
        ],
        65,
    );
}

#[test]
fn tokenize_lists_words() {
    expect(
        tokenize("var print_ = nil;", &bits, &debug),
        &[
            "VAR var null",
            "IDENTIFIER print_ null",
            "EQUAL = null",
            "NIL nil null",
            "SEMICOLON ; null",
            "EOF  null",
        ],
        &[],
        0,
    );
}

#[test]
fn parse_writes_the_expression() {
    expect(parse("1 + 2 * 3", &bits, &debug), &["(+ 1.0 (* 2.0 3.0))"], &[], 0);
    expect(parse("(\"a\" == nil) != !true", &bits, &debug), &["(!= (group (== a nil)) (! true))"], &[], 0);
    expect(parse("", &bits, &debug), &["nil"], &[], 0);
    expect(parse("1 2 3", &bits, &debug), &["1.0"], &[], 0);
}

#[test]
fn parse_fails_silently_on_a_syntax_error() {
    expect(parse("(1 + 2", &bits, &debug), &[], &[], 65);
    expect(parse("+", &bits, &debug), &[], &[], 65);
}

#[test]
fn parse_reports_the_first_lexical_error() {
    expect(parse("1 + @ $", &bits, &debug), &[], &["[line 1] Error: Unexpected character: @"], 65);
    expect(parse("\n\n\"open", &bits, &debug), &[], &["[line 3] Error: Unterminated string."], 65);
}

#[test]
fn evaluate_writes_the_value() {
    expect(evaluate("1 + 2 * 3", &bits, &arith, &display), &["7"], &[], 0);
    expect(evaluate("\"foo\" + \"bar\"", &bits, &arith, &display), &["foobar"], &[], 0);
    expect(evaluate("10.40", &bits, &arith, &display), &["10.4"], &[], 0);
    expect(evaluate("!nil", &bits, &arith, &display), &["true"], &[], 0);
    expect(evaluate("", &bits, &arith, &display), &["nil"], &[], 0);
}

#[test]
fn evaluate_reports_errors() {
    expect(evaluate("-\"a\"", &bits, &arith, &display), &[], &["Operand must be a number."], 70);
    expect(
        evaluate("1 + \"a\"", &bits, &arith, &display),
        &[],
        &["Operands must be two numbers or two strings."],
        70,
    );
    expect(evaluate("a", &bits, &arith, &display), &[], &["Undefined variable 'a'."], 70);
    expect(evaluate("a = 1", &bits, &arith, &display), &[], &["Undeclared variable 'a'."], 70);
    expect(evaluate("(1", &bits, &arith, &display), &[], &[], 65);
    expect(evaluate("#", &bits, &arith, &display), &[], &["[line 1] Error: Unexpected character: #"], 65);
}

#[test]
fn run_prints_arithmetic() {
    expect(ran("print 1 + 2 * 3;"), &["7"], &[], 0);
}

#[test]
fn run_joins_strings_and_rejects_mixed_plus() {
    expect(ran("print \"foo\" + \"bar\";"), &["foobar"], &[], 0);
    expect(ran("print 1 + \"a\";"), &[], &["Operands must be two numbers or two strings."], 70);
}

#[test]
fn run_shadows_in_a_block() {
    expect(ran("var a = 1; { var a = 2; print a; } print a;"), &["2", "1"], &[], 0);
}

#[test]
fn run_prints_nil_for_a_bare_declaration() {
    expect(ran("var a; print a;"), &["nil"], &[], 0);
}

#[test]
fn run_prints_negated_truthiness() {
    expect(ran("print !nil;"), &["true"], &[], 0);
    expect(ran("print !0;"), &["false"], &[], 0);
    expect(ran("print !\"\";"), &["false"], &[], 0);
}

#[test]
fn run_compares_across_kinds_without_error() {
    expect(ran("print (1 < 2) == (2 < 3);"), &["true"], &[], 0);
    expect(ran("print (1 < 2) == true;"), &["true"], &[], 0);
    expect(ran("print (1 < 2) == 1;"), &["false"], &[], 0);
    expect(ran("print (1 < 2) != 1;"), &["true"], &[], 0);
}

#[test]
fn run_assigns_from_the_right() {
    expect(ran("var x; var y; x = y = 3; print x; print y;"), &["3", "3"], &[], 0);
    expect(ran("x = y = 3; print x; print y;"), &[], &["Undeclared variable 'x'."], 70);
}

#[test]
fn run_forgets_the_variables_of_a_block() {
    expect(ran("{ var a = 1; } print a;"), &[], &["Undefined variable 'a'."], 70);
}

#[test]
fn run_keeps_what_was_printed_before_an_error() {
    expect(ran("print 1; print 2; print -nil; print 3;"), &["1", "2"], &["Operand must be a number."], 70);
}

#[test]
fn run_reports_syntax_errors() {
    expect(ran("print 1; print ;"), &[], &["Failed to parse the statements: invalid token: SEMICOLON ; null"], 65);
    expect(ran("{ print 1;"), &[], &["Failed to parse the statements: missing right brace"], 65);
    expect(ran("print (1;"), &[], &["Failed to parse the statements: missing right paren"], 65);
    expect(ran("print 1"), &[], &["Failed to parse the statements: expected semicolon"], 65);
    expect(ran("var 1;"), &[], &["Failed to parse the statements: expected identifier"], 65);
    expect(ran("}"), &[], &["Failed to parse the statements: invalid token: RIGHT_BRACE } null"], 65);
}

#[test]
fn run_reports_the_first_lexical_error() {
    expect(ran("print 1;\nprint @;"), &[], &["[line 2] Error: Unexpected character: @"], 65);
}

#[test]
fn run_of_nothing_prints_nothing() {
    expect(ran(""), &[], &[], 0);
    expect(ran("// nothing\n"), &[], &[], 0);
}
