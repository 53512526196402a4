use bina::digits::{program, sum_of_lines};
use bina::interpreter::interpret;
use bina::lexer::parse;
use bina::machine::{Event, Machine};
use bina::parser::parse_input;
use bina::runtime::{inner_run, Value};

const SAMPLE: &str = "\n1abc2\npqr3stu8vwx\na1b2c3d4e5f\ntreb7uchet\n";

/// The script as a source text, for a text without quotes or backslashes.
fn source_for(text: &str, length: usize) -> String {
    format!(
        r#"
let quiz_input := "{text}";
let sum := 0;
let index := 0;

while index < {length} {{
    let is_first_digit_found := false;
    let first_digit_found := 0;
    let last_digit_found := 0;
    while quiz_input[index] != "\n" {{
        if quiz_input[index] in "0123456789" {{
            if is_first_digit_found == false {{
                first_digit_found := quiz_input[index];
                is_first_digit_found := true;
            }} 
            last_digit_found := quiz_input[index];
        }}
        index := index + 1;
    }}
    let first_digit_found_mult := first_digit_found * 10;
    sum := sum + first_digit_found_mult;
    sum := sum + last_digit_found;
    index := index + 1;
}}
print sum;
"#
    )
}

/// The sum of the numbers of the lines, computed without the interpreter.
fn expected_sum(text: &str) -> i64 {
    text.lines()
        .map(|line| {
            let digits: Vec<i64> =
                line.chars().filter(|c| c.is_ascii_digit()).map(|c| c as i64 - '0' as i64).collect();
            match (digits.first(), digits.last()) {
                (Some(first), Some(last)) => 10 * first + last,
                _ => 0,
            }
        })
        .sum()
}

#[test]
fn the_program_is_what_the_source_text_parses_to() {
    let parsed = parse_input(parse(&source_for(SAMPLE, 42)).unwrap()).unwrap();
    assert_eq!(program(SAMPLE, 42), parsed);
    let parsed = parse_input(parse(&source_for("ab\n", 3)).unwrap()).unwrap();
    assert_eq!(program("ab\n", 3), parsed);
}

#[test]
fn the_program_sums_the_sample_to_142() {
    let statements = program(SAMPLE, 42);
    let mut lines = Vec::new();
    let env = inner_run(&statements, &mut lines, 43).unwrap();
    assert_eq!(lines, vec!["142"]);
    assert_eq!(env.get("sum"), Some(&Value::Number(142)));
    assert_eq!(env.get("index"), Some(&Value::Number(42)));
    let mut machine = Machine::new(&statements);
    assert_eq!(machine.advance(u64::MAX), Event::Printed("142".to_string()));
    assert_eq!(machine.advance(u64::MAX), Event::Finished);
}

#[test]
fn sum_of_lines_of_the_sample() {
    assert_eq!(SAMPLE.chars().count(), 42);
    assert_eq!(sum_of_lines(SAMPLE), Some(142));
}

#[test]
fn sum_of_lines_of_other_texts() {
    for (text, sum) in [
        ("", 0),
        ("\n", 0),
        ("\n\n\n", 0),
        ("abc\n", 0),
        ("7\n", 77),
        ("x1y\n\n9z8\n", 109),
        ("12\n34\n56\n", 102),
        ("0\n00\na0b0c\n", 0),
        ("99\n99\n99\n", 297),
        ("1\u{e9}2\n\u{663}\n", 12),
    ] {
        assert_eq!(sum_of_lines(text), Some(sum), "of {:?}", text);
        assert_eq!(expected_sum(text), sum);
    }
}

#[test]
fn a_text_whose_last_line_is_open_has_no_sum() {
    for text in ["1", "12\n3", "\n ", "abc"] {
        assert_eq!(sum_of_lines(text), None, "of {:?}", text);
        // The script itself reads beyond the end of such a text.
        let statements = program(text, text.chars().count() as i64);
        let mut lines = Vec::new();
        assert!(inner_run(&statements, &mut lines, 1000).is_err());
    }
}

#[test]
fn the_source_text_and_the_program_agree() {
    for text in ["\n", "a1\n", "5x\n\n77\nq\n", SAMPLE] {
        let length = text.chars().count();
        let mut lines = Vec::new();
        let env = interpret(&source_for(text, length), &mut lines, length as u64 + 1).unwrap();
        let sum = expected_sum(text);
        assert_eq!(lines, vec![sum.to_string()]);
        assert_eq!(env.get("sum"), Some(&Value::Number(sum)));
        assert_eq!(sum_of_lines(text), Some(sum));
    }
}
