use lox_interpreter::interpret::{
    evaluate_expr, Environments, EvaluationError, Interpreter, Value,
};
use lox_interpreter::lex::tokens;
use lox_interpreter::number::Arithmetic;
use lox_interpreter::parse::{
    parse_expr, parse_statements, ExpressionTree, Primary, StatementTree, TokenStream,
};

fn bits(lexeme: String) -> u64 {
    lexeme.parse::<f64>().unwrap().to_bits()
}

fn arith(request: Arithmetic) -> u64 {
    let (a, b) = match request {
        Arithmetic::Add(a, b)
        | Arithmetic::Subtract(a, b)
        | Arithmetic::Multiply(a, b)
        | Arithmetic::Divide(a, b) => (f64::from_bits(a), f64::from_bits(b)),
    };
    match request {
        Arithmetic::Add(..) => (a + b).to_bits(),
        Arithmetic::Subtract(..) => (a - b).to_bits(),
        Arithmetic::Multiply(..) => (a * b).to_bits(),
        Arithmetic::Divide(..) => (a / b).to_bits(),
    }
}

fn display(bits: u64) -> String {
    format!("{}", f64::from_bits(bits))
}

fn expression(source: &str) -> ExpressionTree {
    parse_expr(&mut TokenStream::new(tokens(source, &bits).unwrap()), 0).unwrap()
}

fn program(source: &str) -> Vec<StatementTree> {
    parse_statements(&mut TokenStream::new(tokens(source, &bits).unwrap())).unwrap()
}

fn value_of(source: &str) -> Result<Value, EvaluationError> {
    Interpreter::new().evaluate_expr(expression(source), &arith)
}

fn number(value: f64) -> Value {
    Value::Number(value.to_bits())
}

fn string(text: &str) -> Value {
    Value::String(text.to_string())
}

/// What a program prints, and how it ends.
fn run(source: &str) -> (Vec<String>, Result<(), EvaluationError>) {
    let mut interpreter = Interpreter::new();
    let result = interpreter.evaluate(program(source), &arith);
    (interpreter.output().iter().map(|value| value.to_text(&display)).collect(), result)
}

fn printed(source: &str) -> Vec<String> {
    let (lines, result) = run(source);
    assert_eq!(result, Ok(()));
    lines
}

#[test]
fn an_expression_evaluates_on_its_own() {
    assert_eq!(evaluate_expr(expression("(1 + 2) * 3 - 4 / 8"), &arith), Ok(number(8.5)));
    assert_eq!(evaluate_expr(expression("\"a\" + \"b\" == \"ab\""), &arith), Ok(Value::Boolean(true)));
    assert_eq!(
        evaluate_expr(expression("a"), &arith),
        Err(EvaluationError::UndefinedVariable("a".to_string()))
    );
}

#[test]
fn literals_evaluate_to_themselves() {
    assert_eq!(value_of("1.5"), Ok(number(1.5)));
    assert_eq!(value_of("\"hi\""), Ok(string("hi")));
    assert_eq!(value_of("true"), Ok(Value::Boolean(true)));
    assert_eq!(value_of("false"), Ok(Value::Boolean(false)));
    assert_eq!(value_of("nil"), Ok(Value::Nil));
    assert_eq!(value_of("((2))"), Ok(number(2.0)));
    assert_eq!(value_of(""), Ok(Value::Nil));
}

#[test]
fn arithmetic_follows_ieee_754() {
    assert_eq!(value_of("1 + 2 * 3"), Ok(number(7.0)));
    assert_eq!(value_of("(1 + 2) * 3"), Ok(number(9.0)));
    assert_eq!(value_of("7 - 10"), Ok(number(-3.0)));
    assert_eq!(value_of("7 / 2"), Ok(number(3.5)));
    assert_eq!(value_of("0.1 + 0.2"), Ok(number(0.1 + 0.2)));
    assert_eq!(value_of("1 / 0"), Ok(number(f64::INFINITY)));
    assert_eq!(value_of("-1 / 0"), Ok(number(f64::NEG_INFINITY)));
    assert_eq!(value_of("8 - 2 - 1"), Ok(number(5.0)));
    assert_eq!(value_of("8 / 2 / 2"), Ok(number(2.0)));
}

#[test]
fn division_of_zero_by_zero_is_not_a_number() {
    match value_of("0 / 0") {
        Ok(Value::Number(bits)) => assert!(f64::from_bits(bits).is_nan()),
        other => panic!("{other:?}"),
    }
    assert_eq!(value_of("0 / 0 == 0 / 0"), Ok(Value::Boolean(false)));
    assert_eq!(value_of("0 / 0 != 0 / 0"), Ok(Value::Boolean(true)));
    assert_eq!(value_of("0 / 0 < 1"), Ok(Value::Boolean(false)));
    assert_eq!(value_of("0 / 0 >= 1"), Ok(Value::Boolean(false)));
}

#[test]
fn unary_minus_negates_numbers_only() {
    assert_eq!(value_of("-3"), Ok(number(-3.0)));
    assert_eq!(value_of("--3"), Ok(number(3.0)));
    assert_eq!(value_of("-0"), Ok(number(-0.0)));
    assert_eq!(value_of("-\"a\""), Err(EvaluationError::ExpectedNumber));
    assert_eq!(value_of("-true"), Err(EvaluationError::ExpectedNumber));
    assert_eq!(value_of("-nil"), Err(EvaluationError::ExpectedNumber));
}

#[test]
fn bang_negates_truthiness() {
    assert_eq!(value_of("!nil"), Ok(Value::Boolean(true)));
    assert_eq!(value_of("!false"), Ok(Value::Boolean(true)));
    assert_eq!(value_of("!true"), Ok(Value::Boolean(false)));
    assert_eq!(value_of("!0"), Ok(Value::Boolean(false)));
    assert_eq!(value_of("!\"\""), Ok(Value::Boolean(false)));
    assert_eq!(value_of("!\"a\""), Ok(Value::Boolean(false)));
    assert_eq!(value_of("!!nil"), Ok(Value::Boolean(false)));
}

#[test]
fn plus_adds_numbers_and_joins_strings() {
    assert_eq!(value_of("1 + 2"), Ok(number(3.0)));
    assert_eq!(value_of("\"foo\" + \"bar\""), Ok(string("foobar")));
    assert_eq!(value_of("\"\" + \"\""), Ok(string("")));
    assert_eq!(value_of("\"a\" + \"b\" + \"c\""), Ok(string("abc")));
    assert_eq!(value_of("1 + \"a\""), Err(EvaluationError::WrongPlusOperands));
    assert_eq!(value_of("\"a\" + 1"), Err(EvaluationError::WrongPlusOperands));
    assert_eq!(value_of("nil + nil"), Err(EvaluationError::WrongPlusOperands));
    assert_eq!(value_of("true + false"), Err(EvaluationError::WrongPlusOperands));
}

#[test]
fn other_arithmetic_takes_numbers_only() {
    assert_eq!(value_of("\"a\" * 2"), Err(EvaluationError::ExpectedNumber));
    assert_eq!(value_of("2 * \"a\""), Err(EvaluationError::ExpectedNumber));
    assert_eq!(value_of("\"a\" / \"b\""), Err(EvaluationError::ExpectedNumber));
    assert_eq!(value_of("\"a\" - \"b\""), Err(EvaluationError::ExpectedNumber));
    assert_eq!(value_of("nil - 1"), Err(EvaluationError::ExpectedNumber));
    assert_eq!(value_of("1 < \"2\""), Err(EvaluationError::ExpectedNumber));
    assert_eq!(value_of("true >= false"), Err(EvaluationError::ExpectedNumber));
}

#[test]
fn comparisons_order_numbers() {
    assert_eq!(value_of("1 < 2"), Ok(Value::Boolean(true)));
    assert_eq!(value_of("2 < 1"), Ok(Value::Boolean(false)));
    assert_eq!(value_of("2 < 2"), Ok(Value::Boolean(false)));
    assert_eq!(value_of("2 <= 2"), Ok(Value::Boolean(true)));
    assert_eq!(value_of("3 <= 2"), Ok(Value::Boolean(false)));
    assert_eq!(value_of("3 > 2"), Ok(Value::Boolean(true)));
    assert_eq!(value_of("2 > 3"), Ok(Value::Boolean(false)));
    assert_eq!(value_of("2 >= 2"), Ok(Value::Boolean(true)));
    assert_eq!(value_of("1 >= 2"), Ok(Value::Boolean(false)));
    assert_eq!(value_of("-1 < 0"), Ok(Value::Boolean(true)));
    assert_eq!(value_of("-2 < -1"), Ok(Value::Boolean(true)));
    assert_eq!(value_of("-0 < 0"), Ok(Value::Boolean(false)));
    assert_eq!(value_of("0.5 > 0.25"), Ok(Value::Boolean(true)));
}

#[test]
fn equality_within_one_kind() {
    assert_eq!(value_of("1 == 1"), Ok(Value::Boolean(true)));
    assert_eq!(value_of("1 == 2"), Ok(Value::Boolean(false)));
    assert_eq!(value_of("0 == -0"), Ok(Value::Boolean(true)));
    assert_eq!(value_of("\"a\" == \"a\""), Ok(Value::Boolean(true)));
    assert_eq!(value_of("\"a\" == \"b\""), Ok(Value::Boolean(false)));
    assert_eq!(value_of("true == true"), Ok(Value::Boolean(true)));
    assert_eq!(value_of("true == false"), Ok(Value::Boolean(false)));
    assert_eq!(value_of("nil == nil"), Ok(Value::Boolean(true)));
    assert_eq!(value_of("(1 < 2) == (2 < 3)"), Ok(Value::Boolean(true)));
}

#[test]
fn equality_across_kinds_is_false() {
    assert_eq!(value_of("(1 < 2) == true"), Ok(Value::Boolean(true)));
    assert_eq!(value_of("1 == true"), Ok(Value::Boolean(false)));
    assert_eq!(value_of("1 == \"1\""), Ok(Value::Boolean(false)));
    assert_eq!(value_of("nil == false"), Ok(Value::Boolean(false)));
    assert_eq!(value_of("\"\" == nil"), Ok(Value::Boolean(false)));
    assert_eq!(value_of("0 == nil"), Ok(Value::Boolean(false)));
}

#[test]
fn bang_equal_is_the_negation_of_equal_equal() {
    for source in [
        "1 != 1",
        "1 != 2",
        "\"a\" != \"a\"",
        "\"a\" != \"b\"",
        "true != true",
        "true != false",
        "nil != nil",
        "1 != true",
        "1 != \"1\"",
        "nil != false",
        "nil != 0",
        "\"\" != nil",
    ] {
        let negated = value_of(source).unwrap();
        let plain = value_of(&source.replace("!=", "==")).unwrap();
        match (plain, negated) {
            (Value::Boolean(a), Value::Boolean(b)) => assert_eq!(a, !b, "{source}"),
            other => panic!("{other:?}"),
        }
    }
    assert_eq!(value_of("nil != nil"), Ok(Value::Boolean(false)));
    assert_eq!(value_of("1 != \"1\""), Ok(Value::Boolean(true)));
}

#[test]
fn reading_an_unknown_name_is_an_error() {
    assert_eq!(value_of("a"), Err(EvaluationError::UndefinedVariable("a".to_string())));
    assert_eq!(value_of("1 + b"), Err(EvaluationError::UndefinedVariable("b".to_string())));
}

#[test]
fn assigning_to_an_unknown_name_is_an_error() {
    assert_eq!(value_of("a = 1"), Err(EvaluationError::UndeclaredVariable("a".to_string())));
    assert_eq!(value_of("a = b"), Err(EvaluationError::UndeclaredVariable("a".to_string())));
}

#[test]
fn left_operand_is_checked_before_the_right_is_evaluated() {
    let mut interpreter = Interpreter::new();
    assert_eq!(interpreter.evaluate(program("var a = 1;"), &arith), Ok(()));
    assert_eq!(
        interpreter.evaluate_expr(expression("\"x\" * (a = 2)"), &arith),
        Err(EvaluationError::ExpectedNumber)
    );
    assert_eq!(interpreter.evaluate_expr(expression("a"), &arith), Ok(number(1.0)));
    assert_eq!(
        interpreter.evaluate_expr(expression("\"x\" + (a = 2)"), &arith),
        Err(EvaluationError::WrongPlusOperands)
    );
    assert_eq!(interpreter.evaluate_expr(expression("a"), &arith), Ok(number(2.0)));
    assert_eq!(
        interpreter.evaluate_expr(expression("(a = 3) * \"x\""), &arith),
        Err(EvaluationError::ExpectedNumber)
    );
    assert_eq!(interpreter.evaluate_expr(expression("a"), &arith), Ok(number(3.0)));
}

#[test]
fn print_shows_values() {
    assert_eq!(printed("print 1 + 2 * 3;"), vec!["7"]);
    assert_eq!(printed("print \"foo\" + \"bar\";"), vec!["foobar"]);
    assert_eq!(printed("print 1.5; print 10 / 4; print 0.1 + 0.2;"), vec!["1.5", "2.5", "0.30000000000000004"]);
    assert_eq!(printed("print true; print false; print nil;"), vec!["true", "false", "nil"]);
    assert_eq!(printed("print !nil; print !0; print !\"\";"), vec!["true", "false", "false"]);
    assert_eq!(printed("print (1 < 2) == (2 < 3);"), vec!["true"]);
    assert_eq!(printed("print 1 == \"1\";"), vec!["false"]);
    assert_eq!(printed("1 + 2; \"unused\";"), Vec::<String>::new());
}

#[test]
fn plus_on_mixed_operands_ends_the_program() {
    assert_eq!(
        run("print 1; print 1 + \"a\"; print 2;"),
        (vec!["1".to_string()], Err(EvaluationError::WrongPlusOperands))
    );
}

#[test]
fn variables_hold_values() {
    assert_eq!(printed("var a; print a;"), vec!["nil"]);
    assert_eq!(printed("var a = 1; print a; a = a + 1; print a;"), vec!["1", "2"]);
    assert_eq!(printed("var a = 1; var a = \"again\"; print a;"), vec!["again"]);
    assert_eq!(printed("var a = 1; var b = a; a = 2; print b; print a;"), vec!["1", "2"]);
}

#[test]
fn assignment_gives_its_value() {
    assert_eq!(printed("var x; var y; x = y = 3; print x; print y;"), vec!["3", "3"]);
    assert_eq!(printed("var a; print a = 5; print a;"), vec!["5", "5"]);
    assert_eq!(printed("var a = 1; print (a = 2) + a;"), vec!["4"]);
}

#[test]
fn assignment_checks_the_name_before_it_evaluates() {
    assert_eq!(
        run("var b = 1; a = (b = 2); print b;"),
        (vec![], Err(EvaluationError::UndeclaredVariable("a".to_string())))
    );
    let mut interpreter = Interpreter::new();
    assert_eq!(interpreter.evaluate(program("var b = 1;"), &arith), Ok(()));
    assert_eq!(
        interpreter.evaluate_expr(expression("a = (b = 2)"), &arith),
        Err(EvaluationError::UndeclaredVariable("a".to_string()))
    );
    assert_eq!(interpreter.evaluate_expr(expression("b"), &arith), Ok(number(1.0)));
}

#[test]
fn inner_declaration_shadows_the_outer() {
    assert_eq!(printed("var a = 1; { var a = 2; print a; } print a;"), vec!["2", "1"]);
    assert_eq!(
        printed("var a = 1; { var a = 2; a = 3; print a; { a = 4; } print a; } print a;"),
        vec!["3", "4", "1"]
    );
    assert_eq!(printed("var a = 1; { var a = a + 1; print a; } print a;"), vec!["2", "1"]);
}

#[test]
fn assignment_in_a_block_reaches_the_outer_variable() {
    assert_eq!(printed("var a = 1; { a = 2; } print a;"), vec!["2"]);
    assert_eq!(printed("var a = 1; { { a = a + 1; } print a; }"), vec!["2"]);
}

#[test]
fn a_block_keeps_its_declarations_to_itself() {
    assert_eq!(
        run("{ var a = 1; print a; } print a;"),
        (vec!["1".to_string()], Err(EvaluationError::UndefinedVariable("a".to_string())))
    );
    assert_eq!(
        run("{ var a = 1; } a = 2;"),
        (vec![], Err(EvaluationError::UndeclaredVariable("a".to_string())))
    );
}

#[test]
fn a_block_is_left_when_it_fails() {
    let mut interpreter = Interpreter::new();
    assert_eq!(
        interpreter.evaluate(program("var a = 1; { var a = 2; var b = 3; -\"x\"; }"), &arith),
        Err(EvaluationError::ExpectedNumber)
    );
    assert_eq!(interpreter.evaluate_expr(expression("a"), &arith), Ok(number(1.0)));
    assert_eq!(
        interpreter.evaluate_expr(expression("b"), &arith),
        Err(EvaluationError::UndefinedVariable("b".to_string()))
    );
    assert_eq!(interpreter.evaluate(program("var c = 4;"), &arith), Ok(()));
    assert_eq!(interpreter.evaluate(program("{ print c; }"), &arith), Ok(()));
    assert_eq!(interpreter.output(), &vec![number(4.0)]);
}

#[test]
fn the_interpreter_remembers_between_calls() {
    let mut interpreter = Interpreter::new();
    assert_eq!(interpreter.evaluate(program("var a = 1; print a;"), &arith), Ok(()));
    assert_eq!(interpreter.evaluate(program("a = a + 1; print a;"), &arith), Ok(()));
    assert_eq!(interpreter.output(), &vec![number(1.0), number(2.0)]);
    assert_eq!(Interpreter::new().output(), &Vec::<Value>::new());
}

#[test]
fn trees_built_by_hand_evaluate() {
    let tree = ExpressionTree::Assignment(
        "a".to_string(),
        Box::new(ExpressionTree::Primary(Primary::Number(2f64.to_bits()))),
    );
    let mut interpreter = Interpreter::new();
    let declaration = StatementTree::VarDeclaration { ident: "a".to_string(), expr: None };
    assert_eq!(interpreter.evaluate(vec![declaration], &arith), Ok(()));
    assert_eq!(interpreter.evaluate_expr(tree, &arith), Ok(number(2.0)));
}

#[test]
fn values_show_as_print_shows_them() {
    assert_eq!(number(7.0).to_text(&display), "7");
    assert_eq!(number(-0.5).to_text(&display), "-0.5");
    assert_eq!(number(1e21).to_text(&display), "1000000000000000000000");
    assert_eq!(string("a b").to_text(&display), "a b");
    assert_eq!(Value::<String>::Boolean(true).to_text(&display), "true");
    assert_eq!(Value::<String>::Boolean(false).to_text(&display), "false");
    assert_eq!(Value::<String>::Nil.to_text(&display), "nil");
}

#[test]
fn evaluation_error_messages() {
    assert_eq!(EvaluationError::<String>::ExpectedNumber.to_text(), "Operand must be a number.");
    assert_eq!(
        EvaluationError::<String>::WrongPlusOperands.to_text(),
        "Operands must be two numbers or two strings."
    );
    assert_eq!(
        EvaluationError::UndefinedVariable("foo".to_string()).to_text(),
        "Undefined variable 'foo'."
    );
    assert_eq!(
        EvaluationError::UndeclaredVariable("foo".to_string()).to_text(),
        "Undeclared variable 'foo'."
    );
}

#[test]
fn scopes_look_up_innermost_first() {
    let a = "a".to_string();
    let b = "b".to_string();
    let mut scopes = Environments::new();
    assert_eq!(scopes.get(&a), None);
    assert_eq!(scopes.insert(a.clone(), number(1.0)), None);
    assert_eq!(scopes.get(&a), Some(&number(1.0)));
    scopes.push_block();
    assert_eq!(scopes.get(&a), Some(&number(1.0)));
    assert_eq!(scopes.insert(a.clone(), number(2.0)), None);
    assert_eq!(scopes.insert(b.clone(), Value::Nil), None);
    assert_eq!(scopes.get(&a), Some(&number(2.0)));
    assert_eq!(scopes.insert(a.clone(), number(3.0)), Some(number(2.0)));
    assert_eq!(scopes.get(&a), Some(&number(3.0)));
    scopes.pop_block();
    assert_eq!(scopes.get(&a), Some(&number(1.0)));
    assert_eq!(scopes.get(&b), None);
}

#[test]
fn scopes_write_to_the_innermost_declaration() {
    let a = "a".to_string();
    let b = "b".to_string();
    let mut scopes = Environments::new();
    assert_eq!(scopes.get_mut(&a), None);
    assert_eq!(scopes.get(&a), None);
    scopes.insert(a.clone(), number(1.0));
    scopes.push_block();
    scopes.insert(b.clone(), number(2.0));
    scopes.push_block();
    assert_eq!(scopes.get_mut(&a), Some(&mut number(1.0)));
    *scopes.get_mut(&a).unwrap() = number(10.0);
    *scopes.get_mut(&b).unwrap() = number(20.0);
    assert_eq!(scopes.get(&a), Some(&number(10.0)));
    assert_eq!(scopes.get(&b), Some(&number(20.0)));
    scopes.insert(a.clone(), number(3.0));
    *scopes.get_mut(&a).unwrap() = number(30.0);
    assert_eq!(scopes.get(&a), Some(&number(30.0)));
    scopes.pop_block();
    assert_eq!(scopes.get(&a), Some(&number(10.0)));
    scopes.pop_block();
    assert_eq!(scopes.get(&b), None);
    assert_eq!(scopes.get_mut(&b), None);
    assert_eq!(scopes.get(&a), Some(&number(10.0)));
}

#[test]
fn the_global_scope_is_never_closed() {
    let a = "a".to_string();
    let mut scopes = Environments::new();
    scopes.insert(a.clone(), number(1.0));
    scopes.pop_block();
    scopes.pop_block();
    assert_eq!(scopes.get(&a), Some(&number(1.0)));
    scopes.insert(a.clone(), number(2.0));
    assert_eq!(scopes.get(&a), Some(&number(2.0)));
}
