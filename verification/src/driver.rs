//! The four modes of the command line tool, each from a source text to what
//! the tool writes and the code it exits with.

use vstd::prelude::*;
use vstd::string::StringExecFns;
use crate::interpret::{
    evaluate_expr, evaluate_expression, evaluation_error_text, execute_all, fresh_scopes,
    value_models, value_text, Interpreter, Value,
};
use crate::lex::{
    first_error, lemma_first_error, lex, lexed_models, lexing_error_text, token_text, tokens_of,
    LexingError, Token,
};
use crate::number::{
    arithmetic_ok, computes, conversion_ok, converts, formats, formatting_ok, Arithmetic, Text,
};
use crate::parse::{
    expression_text, parse_error_text, parse_expr, parse_expression, parse_list, parse_statements,
    statement_models, TokenStream,
};

verus! {

/// The exit code of a run without error.
pub const EXIT_OK: i32 = 0;

/// The exit code after a lexical or syntactic error.
pub const EXIT_SYNTAX_ERROR: i32 = 65;

/// The exit code after an error of evaluation.
pub const EXIT_RUNTIME_ERROR: i32 = 70;

/// The last line of a listing of tokens.
pub open spec fn end_of_file_line() -> Text {
    "EOF  null"@
}

/// What the tool writes and how it exits.
pub struct Report {
    /// The lines for standard output.
    pub stdout: Vec<String>,
    /// The lines for standard error.
    pub stderr: Vec<String>,
    pub exit_code: i32,
}

/// A report as the contracts see it.
pub struct Outcome {
    pub stdout: Seq<Text>,
    pub stderr: Seq<Text>,
    pub exit_code: int,
}

/// The lines of a list, each as the contracts see it.
pub open spec fn lines(texts: Seq<String>) -> Seq<Text> {
    Seq::new(texts.len(), |i: int| texts[i]@)
}

impl View for Report {
    type V = Outcome;

    open spec fn view(&self) -> Outcome {
        Outcome {
            stdout: lines(self.stdout@),
            stderr: lines(self.stderr@),
            exit_code: self.exit_code as int,
        }
    }
}

/// The lines that list the tokens among what the lexer gave.
pub open spec fn token_lines(
    format: spec_fn(u64) -> Text,
    items: Seq<Result<Token<Text>, LexingError>>,
) -> Seq<Text>
    decreases items.len(),
{
    if items.len() == 0 {
        Seq::empty()
    } else {
        match items.last() {
            Ok(token) => token_lines(format, items.drop_last()).push(token_text(format, token)),
            Err(_) => token_lines(format, items.drop_last()),
        }
    }
}

/// The messages of the errors among what the lexer gave.
pub open spec fn error_lines(items: Seq<Result<Token<Text>, LexingError>>) -> Seq<Text>
    decreases items.len(),
{
    if items.len() == 0 {
        Seq::empty()
    } else {
        match items.last() {
            Ok(_) => error_lines(items.drop_last()),
            Err(error) => error_lines(items.drop_last()).push(lexing_error_text(error)),
        }
    }
}

/// What the mode `tokenize` does with a source: it lists every token, then
/// the end of the file, reports every lexical error, and fails if there was
/// one.
pub open spec fn tokenize_outcome(
    value: spec_fn(Text) -> u64,
    format: spec_fn(u64) -> Text,
    source: Text,
) -> Outcome {
    let items = lex(value, source);
    Outcome {
        stdout: token_lines(format, items).push(end_of_file_line()),
        stderr: error_lines(items),
        exit_code: if first_error(items) is Some {
            EXIT_SYNTAX_ERROR as int
        } else {
            EXIT_OK as int
        },
    }
}

/// The outcome of a lexical error: its message, and nothing else.
pub open spec fn lexical_failure(error: LexingError) -> Outcome {
    Outcome {
        stdout: Seq::empty(),
        stderr: seq![lexing_error_text(error)],
        exit_code: EXIT_SYNTAX_ERROR as int,
    }
}

/// What the mode `parse` does with a source: it writes the expression at
/// the start of the source, or fails on the first lexical error or on a
/// syntax error.
pub open spec fn parse_outcome(
    value: spec_fn(Text) -> u64,
    format: spec_fn(u64) -> Text,
    source: Text,
) -> Outcome {
    let items = lex(value, source);
    match first_error(items) {
        Some(error) => lexical_failure(error),
        None => match parse_expression(tokens_of(items), 0, 0).result {
            Err(_) => Outcome {
                stdout: Seq::empty(),
                stderr: Seq::empty(),
                exit_code: EXIT_SYNTAX_ERROR as int,
            },
            Ok(tree) => Outcome {
                stdout: seq![expression_text(format, tree)],
                stderr: Seq::empty(),
                exit_code: EXIT_OK as int,
            },
        },
    }
}

/// What the mode `evaluate` does with a source: it writes the value of the
/// expression at the start of the source, or fails as `parse` does, or on an
/// error of evaluation.
pub open spec fn evaluate_outcome(
    value: spec_fn(Text) -> u64,
    arith: spec_fn(Arithmetic) -> u64,
    format: spec_fn(u64) -> Text,
    source: Text,
) -> Outcome {
    let items = lex(value, source);
    match first_error(items) {
        Some(error) => lexical_failure(error),
        None => match parse_expression(tokens_of(items), 0, 0).result {
            Err(_) => Outcome {
                stdout: Seq::empty(),
                stderr: Seq::empty(),
                exit_code: EXIT_SYNTAX_ERROR as int,
            },
            Ok(tree) => match evaluate_expression(arith, fresh_scopes(), tree).result {
                Ok(result) => Outcome {
                    stdout: seq![value_text(format, result)],
                    stderr: Seq::empty(),
                    exit_code: EXIT_OK as int,
                },
                Err(error) => Outcome {
                    stdout: Seq::empty(),
                    stderr: seq![evaluation_error_text(error)],
                    exit_code: EXIT_RUNTIME_ERROR as int,
                },
            },
        },
    }
}

/// The printed values, each as `print` shows it.
pub open spec fn value_lines(format: spec_fn(u64) -> Text, values: Seq<Value<Text>>) -> Seq<Text> {
    Seq::new(values.len(), |i: int| value_text(format, values[i]))
}

/// What the mode `run` does with a source: it runs the program and writes
/// what the program prints, or fails on the first lexical error, on a syntax
/// error, or on an error of evaluation, after which what was printed before
/// the error is still written.
pub open spec fn run_outcome(
    value: spec_fn(Text) -> u64,
    arith: spec_fn(Arithmetic) -> u64,
    format: spec_fn(u64) -> Text,
    source: Text,
) -> Outcome {
    let items = lex(value, source);
    match first_error(items) {
        Some(error) => lexical_failure(error),
        None => match parse_list(tokens_of(items), 0, false).result {
            Err(error) => Outcome {
                stdout: Seq::empty(),
                stderr: seq!["Failed to parse the statements: "@ + parse_error_text(format, error)],
                exit_code: EXIT_SYNTAX_ERROR as int,
            },
            Ok(statements) => {
                let run = execute_all(arith, fresh_scopes(), statements);
                Outcome {
                    stdout: value_lines(format, run.printed),
                    stderr: match run.result {
                        Ok(_) => Seq::empty(),
                        Err(error) => seq![evaluation_error_text(error)],
                    },
                    exit_code: if run.result is Ok {
                        EXIT_OK as int
                    } else {
                        EXIT_RUNTIME_ERROR as int
                    },
                }
            },
        },
    }
}

/// A list that holds one line.
fn one_line(line: String) -> (list: Vec<String>)
    ensures
        lines(list@) == seq![line@],
{
    let mut list: Vec<String> = Vec::new();
    list.push(line);
    assert(lines(list@) =~= seq![line@]);
    list
}

/// A list that holds no line.
fn no_line() -> (list: Vec<String>)
    ensures
        lines(list@) == Seq::<Text>::empty(),
{
    let list: Vec<String> = Vec::new();
    assert(lines(list@) =~= Seq::<Text>::empty());
    list
}

/// The report of a lexical error.
fn lexical_failure_report(error: LexingError) -> (report: Report)
    ensures
        report@ == lexical_failure(error),
{
    Report {
        stdout: no_line(),
        stderr: one_line(error.to_text()),
        exit_code: EXIT_SYNTAX_ERROR,
    }
}

/// The mode `tokenize`: what `tokenize_outcome` describes, with the
/// functions that `convert` and `format` compute. Whatever the source holds,
/// the listing ends with the line for the end of the file.
pub fn tokenize<C: Fn(String) -> u64, F: Fn(u64) -> String>(
    source: &str,
    convert: &C,
    format: &F,
) -> (report: Report)
    requires
        conversion_ok(*convert),
        formatting_ok(*format),
    ensures
        report@.stdout.len() > 0,
        report@.stdout.last() == end_of_file_line(),
        forall|value: spec_fn(Text) -> u64, render: spec_fn(u64) -> Text|
            #![trigger converts(*convert, value), formats(*format, render)]
            converts(*convert, value) && formats(*format, render) ==> report@ == tokenize_outcome(
                value,
                render,
                source@,
            ),
{
    let items = crate::lex::tokenize(source, convert);
    let ghost models = lexed_models(items@);
    let mut stdout: Vec<String> = Vec::new();
    let mut stderr: Vec<String> = Vec::new();
    let mut failed = false;
    let mut index: usize = 0;
    proof {
        assert(lines(stderr@) =~= error_lines(models.take(0)));
        assert forall|render: spec_fn(u64) -> Text| #[trigger]
            formats(*format, render) implies lines(stdout@) == token_lines(
            render,
            models.take(0),
        ) by {
            assert(lines(stdout@) =~= token_lines(render, models.take(0)));
        }
    }
    while index < items.len()
        invariant
            formatting_ok(*format),
            models == lexed_models(items@),
            index <= items.len(),
            forall|render: spec_fn(u64) -> Text| #[trigger]
                formats(*format, render) ==> lines(stdout@) == token_lines(
                    render,
                    models.take(index as int),
                ),
            lines(stderr@) == error_lines(models.take(index as int)),
            failed == exists|i: int| 0 <= i < index && (#[trigger] models[i]) is Err,
        decreases items.len() - index,
    {
        proof {
            let seen = models.take(index + 1);
            assert(seen.drop_last() =~= models.take(index as int));
            assert(seen.last() == models[index as int]);
        }
        match &items[index] {
            Ok(token) => {
                let line = token.to_text(format);
                assert(lines(stdout@.push(line)) =~= lines(stdout@).push(line@));
                stdout.push(line);
            },
            Err(error) => {
                let line = error.to_text();
                assert(lines(stderr@.push(line)) =~= lines(stderr@).push(line@));
                stderr.push(line);
                failed = true;
            },
        }
        index = index + 1;
    }
    proof {
        assert(models.take(index as int) =~= models);
        lemma_first_error(models);
    }
    let last = "EOF  null".to_owned();
    assert(lines(stdout@.push(last)) =~= lines(stdout@).push(last@));
    stdout.push(last);
    Report {
        stdout,
        stderr,
        exit_code: if failed {
            EXIT_SYNTAX_ERROR
        } else {
            EXIT_OK
        },
    }
}

/// The mode `parse`: what `parse_outcome` describes, with the functions
/// that `convert` and `format` compute.
pub fn parse<C: Fn(String) -> u64, F: Fn(u64) -> String>(source: &str, convert: &C, format: &F) -> (report:
    Report)
    requires
        conversion_ok(*convert),
        formatting_ok(*format),
    ensures
        forall|value: spec_fn(Text) -> u64, render: spec_fn(u64) -> Text|
            #![trigger converts(*convert, value), formats(*format, render)]
            converts(*convert, value) && formats(*format, render) ==> report@ == parse_outcome(
                value,
                render,
                source@,
            ),
{
    let tokens = match crate::lex::tokens(source, convert) {
        Err(error) => {
            return lexical_failure_report(error);
        },
        Ok(tokens) => tokens,
    };
    let mut stream = TokenStream::new(tokens);
    match parse_expr(&mut stream, 0) {
        Err(_) => Report { stdout: no_line(), stderr: no_line(), exit_code: EXIT_SYNTAX_ERROR },
        Ok(tree) => Report {
            stdout: one_line(tree.to_text(format)),
            stderr: no_line(),
            exit_code: EXIT_OK,
        },
    }
}

/// The mode `evaluate`: what `evaluate_outcome` describes, with the
/// functions that `convert`, `unit` and `format` compute.
pub fn evaluate<C: Fn(String) -> u64, A: Fn(Arithmetic) -> u64, F: Fn(u64) -> String>(
    source: &str,
    convert: &C,
    unit: &A,
    format: &F,
) -> (report: Report)
    requires
        conversion_ok(*convert),
        arithmetic_ok(*unit),
        formatting_ok(*format),
    ensures
        forall|
            value: spec_fn(Text) -> u64,
            arith: spec_fn(Arithmetic) -> u64,
            render: spec_fn(u64) -> Text,
        |
            #![trigger converts(*convert, value), computes(*unit, arith), formats(*format, render)]
            converts(*convert, value) && computes(*unit, arith) && formats(*format, render)
                ==> report@ == evaluate_outcome(value, arith, render, source@),
{
    let tokens = match crate::lex::tokens(source, convert) {
        Err(error) => {
            return lexical_failure_report(error);
        },
        Ok(tokens) => tokens,
    };
    let mut stream = TokenStream::new(tokens);
    let tree = match parse_expr(&mut stream, 0) {
        Err(_) => {
            return Report { stdout: no_line(), stderr: no_line(), exit_code: EXIT_SYNTAX_ERROR };
        },
        Ok(tree) => tree,
    };
    match evaluate_expr(tree, unit) {
        Ok(value) => Report {
            stdout: one_line(value.to_text(format)),
            stderr: no_line(),
            exit_code: EXIT_OK,
        },
        Err(error) => Report {
            stdout: no_line(),
            stderr: one_line(error.to_text()),
            exit_code: EXIT_RUNTIME_ERROR,
        },
    }
}

/// The mode `run`: what `run_outcome` describes, with the functions that
/// `convert`, `unit` and `format` compute.
pub fn run<C: Fn(String) -> u64, A: Fn(Arithmetic) -> u64, F: Fn(u64) -> String>(
    source: &str,
    convert: &C,
    unit: &A,
    format: &F,
) -> (report: Report)
    requires
        conversion_ok(*convert),
        arithmetic_ok(*unit),
        formatting_ok(*format),
    ensures
        forall|
            value: spec_fn(Text) -> u64,
            arith: spec_fn(Arithmetic) -> u64,
            render: spec_fn(u64) -> Text,
        |
            #![trigger converts(*convert, value), computes(*unit, arith), formats(*format, render)]
            converts(*convert, value) && computes(*unit, arith) && formats(*format, render)
                ==> report@ == run_outcome(value, arith, render, source@),
{
    let tokens = match crate::lex::tokens(source, convert) {
        Err(error) => {
            return lexical_failure_report(error);
        },
        Ok(tokens) => tokens,
    };
    let mut stream = TokenStream::new(tokens);
    let statements = match parse_statements(&mut stream) {
        Err(error) => {
            let mut message = "Failed to parse the statements: ".to_owned();
            let reason = error.to_text(format);
            message.append(reason.as_str());
            return Report {
                stdout: no_line(),
                stderr: one_line(message),
                exit_code: EXIT_SYNTAX_ERROR,
            };
        },
        Ok(statements) => statements,
    };
    let mut interpreter = Interpreter::new();
    let result = interpreter.evaluate(statements, unit);
    let ghost printed = interpreter.printed();
    let values = interpreter.output();
    let mut stdout: Vec<String> = Vec::new();
    let mut index: usize = 0;
    proof {
        assert forall|render: spec_fn(u64) -> Text| #[trigger]
            formats(*format, render) implies lines(stdout@) == value_lines(
            render,
            printed.take(0),
        ) by {
            assert(lines(stdout@) =~= value_lines(render, printed.take(0)));
        }
    }
    while index < values.len()
        invariant
            formatting_ok(*format),
            value_models(values@) == printed,
            index <= values.len(),
            forall|render: spec_fn(u64) -> Text| #[trigger]
                formats(*format, render) ==> lines(stdout@) == value_lines(
                    render,
                    printed.take(index as int),
                ),
        decreases values.len() - index,
    {
        let line = values[index].to_text(format);
        proof {
            assert(printed[index as int] == values[index as int]@);
            assert(lines(stdout@.push(line)) =~= lines(stdout@).push(line@));
            assert forall|render: spec_fn(u64) -> Text| #[trigger]
                formats(*format, render) implies lines(stdout@).push(line@) == value_lines(
                render,
                printed.take(index + 1),
            ) by {
                let shown = value_lines(render, printed.take(index as int));
                let next = value_lines(render, printed.take(index + 1));
                assert(next.len() == shown.len() + 1);
                assert forall|i: int| 0 <= i < next.len() implies next[i] == shown.push(line@)[i] by {
                    if i < index {
                        assert(printed.take(index + 1)[i] == printed.take(index as int)[i]);
                    }
                }
                assert(next =~= shown.push(line@));
            }
        }
        stdout.push(line);
        index = index + 1;
    }
    proof {
        assert(printed.take(index as int) =~= printed);
        assert forall|arith: spec_fn(Arithmetic) -> u64| #[trigger]
            computes(*unit, arith) implies printed == execute_all(
            arith,
            fresh_scopes(),
            statement_models(statements@),
        ).printed by {
            let run = execute_all(
                arith,
                fresh_scopes(),
                statement_models(statements@),
            );
            assert(Seq::<Value<Text>>::empty() + run.printed =~= run.printed);
        }
    }
    match result {
        Ok(_) => Report { stdout, stderr: no_line(), exit_code: EXIT_OK },
        Err(error) => Report {
            stdout,
            stderr: one_line(error.to_text()),
            exit_code: EXIT_RUNTIME_ERROR,
        },
    }
}

} // verus!
