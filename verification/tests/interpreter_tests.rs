use bina::interpreter::{interpret, Error};
use bina::lexer::{LexError, Token};
use bina::parser::{Expected, ParseError};
use bina::runtime::{Environment, EvalError, Value};

const FUEL: u64 = u64::MAX;

fn run_text(source: &str) -> (Vec<String>, Result<Environment, Error>) {
    let mut out = Vec::new();
    let r = interpret(source, &mut out, FUEL);
    (out, r)
}

fn error_of(r: Result<Environment, Error>) -> Error {
    match r {
        Ok(_) => panic!("the run came to its end"),
        Err(e) => e,
    }
}

#[test]
fn sum_is_printed_and_bound() {
    let (out, r) = run_text("let x := 10 + 5; print x;");
    let env = r.unwrap();
    assert_eq!(out, vec!["15"]);
    assert_eq!(env.len(), 1);
    assert_eq!(env.get("x"), Some(&Value::Number(15)));
}

#[test]
fn index_prints_one_character() {
    let (out, r) = run_text("let s := \"ab\"; print s[1];");
    assert_eq!(out, vec!["b"]);
    assert_eq!(r.unwrap().get("s"), Some(&Value::String("ab".to_string())));
}

#[test]
fn index_at_the_length_fails() {
    let (out, r) = run_text("let s := \"ab\"; print s[0]; print s[2]; print s[1];");
    assert_eq!(out, vec!["a"]);
    assert_eq!(error_of(r), Error::Eval(EvalError::IndexOutOfBounds(2)));
}

#[test]
fn digits_of_each_line_are_summed() {
    let source = r#"
let quiz_input := "
1abc2
pqr3stu8vwx
a1b2c3d4e5f
treb7uchet
";
let sum := 0;
let index := 0;

while index < 42 {
    let is_first_digit_found := false;
    let first_digit_found := 0;
    let last_digit_found := 0;
    while quiz_input[index] != "\n" {
        if quiz_input[index] in "0123456789" {
            if is_first_digit_found == false {
                first_digit_found := quiz_input[index];
                is_first_digit_found := true;
            } 
            last_digit_found := quiz_input[index];
        }
        index := index + 1;
    }
    let first_digit_found_mult := first_digit_found * 10;
    sum := sum + first_digit_found_mult;
    sum := sum + last_digit_found;
    index := index + 1;
}
print sum;
"#;
    let (out, r) = run_text(source);
    let env = r.unwrap();
    assert_eq!(env.get("sum"), Some(&Value::Number(142)));
    assert_eq!(env.get("index"), Some(&Value::Number(42)));
    assert_eq!(out, vec!["142"]);
}

#[test]
fn string_operand_of_addition_is_read_as_a_number() {
    let (out, r) = run_text("print \"5\" + 3;");
    assert!(r.is_ok());
    assert_eq!(out, vec!["8"]);
}

#[test]
fn string_operand_that_is_no_number_fails() {
    let (out, r) = run_text("print \"abc\" + 3;");
    assert!(out.is_empty());
    assert_eq!(error_of(r), Error::Eval(EvalError::NotANumber("abc".to_string())));
}

#[test]
fn false_predicate_skips_the_body() {
    let (out, r) = run_text("if false { print 1; } while false { print 2; } print 3;");
    assert!(r.is_ok());
    assert_eq!(out, vec!["3"]);
}

#[test]
fn predicate_that_is_no_boolean_skips_the_body() {
    let (out, r) = run_text("if 1 { print 1; } while \"true\" { print 2; } if 1 + 1 { print 3; } print 4;");
    assert!(r.is_ok());
    assert_eq!(out, vec!["4"]);
}

#[test]
fn lexical_error_stops_before_anything_runs() {
    let (out, r) = run_text("print 1; print 2 - 1;");
    assert!(out.is_empty());
    assert_eq!(error_of(r), Error::Lex(LexError::UnrecognizedChar('-')));
}

#[test]
fn syntax_error_stops_before_anything_runs() {
    let (out, r) = run_text("print 1; print 2");
    assert!(out.is_empty());
    assert_eq!(
        error_of(r),
        Error::Parse(ParseError { expected: Expected::Semicolon, found: None })
    );
}

#[test]
fn chain_of_operators_is_cut_after_the_first() {
    let (out, r) = run_text("print 1 + 2 + 3;");
    assert!(out.is_empty());
    assert_eq!(
        error_of(r),
        Error::Parse(ParseError { expected: Expected::Semicolon, found: Some(Token::Addition) })
    );
}

#[test]
fn lines_are_appended_to_what_was_there() {
    let mut out = vec!["kept".to_string()];
    let r = interpret("print true; print \"a\\nb\"; print 2 * 21;", &mut out, FUEL);
    assert!(r.is_ok());
    assert_eq!(out, vec!["kept", "true", "a\nb", "42"]);
}

#[test]
fn endless_loop_stops_when_the_fuel_is_used_up() {
    let mut out = Vec::new();
    let r = interpret("let n := 0; while true { n := n + 1; }", &mut out, 50);
    assert_eq!(error_of(r), Error::Eval(EvalError::OutOfFuel));
}

#[test]
fn same_text_gives_the_same_run() {
    let source = "let i := 0; while i < 4 { print i * i; i := i + 1; } print i[0];";
    let (first_out, first) = run_text(source);
    let (second_out, second) = run_text(source);
    assert_eq!(first_out, vec!["0", "1", "4", "9"]);
    assert_eq!(first_out, second_out);
    assert_eq!(error_of(first), error_of(second));
}

#[test]
fn empty_text_is_the_empty_program() {
    let (out, r) = run_text("  \n ");
    assert!(out.is_empty());
    assert_eq!(r.unwrap().len(), 0);
}
