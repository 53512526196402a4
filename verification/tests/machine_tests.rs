use bina::interpreter::interpret;
use bina::lexer::parse;
use bina::machine::{Event, Machine};
use bina::parser::{parse_input, Statement};
use bina::runtime::{EvalError, Value};

fn program_of(source: &str) -> Vec<Statement> {
    parse_input(parse(source).unwrap()).unwrap()
}

/// Runs the machine to its end and collects the lines and the last event.
fn drain(machine: &mut Machine, budget: u64) -> (Vec<String>, Event) {
    let mut lines = Vec::new();
    loop {
        match machine.advance(budget) {
            Event::Printed(line) => lines.push(line),
            Event::Paused => {},
            last => return (lines, last),
        }
    }
}

#[test]
fn machine_prints_the_sum() {
    let program = program_of("let x := 10 + 5; print x;");
    let mut machine = Machine::new(&program);
    assert!(!machine.is_finished());
    assert_eq!(machine.advance(100), Event::Printed("15".to_string()));
    assert_eq!(machine.advance(100), Event::Finished);
    assert!(machine.is_finished());
    assert_eq!(machine.environment().len(), 1);
    assert_eq!(machine.environment().get("x"), Some(&Value::Number(15)));
    // A finished machine stays finished.
    assert_eq!(machine.advance(100), Event::Finished);
    assert_eq!(machine.step(), Event::Finished);
}

#[test]
fn machine_takes_one_step_at_a_time() {
    let program = program_of("let x := 1; if x == 1 { print x; }");
    let mut machine = Machine::new(&program);
    // The program, the assignment, the rest of the program, the conditional, its block, the
    // rest of the block: six steps that tell nothing.
    for _ in 0..6 {
        assert_eq!(machine.step(), Event::Paused);
        assert!(!machine.is_finished());
    }
    assert_eq!(machine.step(), Event::Printed("1".to_string()));
    assert_eq!(machine.step(), Event::Paused);
    assert_eq!(machine.step(), Event::Paused);
    assert_eq!(machine.step(), Event::Finished);
}

#[test]
fn budget_bounds_the_steps_of_one_call() {
    let program = program_of("let x := 1; if x == 1 { print x; }");
    let mut machine = Machine::new(&program);
    assert_eq!(machine.advance(0), Event::Paused);
    assert_eq!(machine.advance(6), Event::Paused);
    assert_eq!(machine.advance(1), Event::Printed("1".to_string()));
    assert_eq!(machine.advance(2), Event::Paused);
    assert_eq!(machine.advance(1), Event::Finished);
    let mut machine = Machine::new(&program);
    assert_eq!(machine.advance(7), Event::Printed("1".to_string()));
    assert_eq!(machine.advance(3), Event::Finished);
}

#[test]
fn lines_come_one_by_one_out_of_a_loop() {
    let program = program_of("let i := 0; while i < 3 { print i; i := i + 1; } print \"end\";");
    let mut machine = Machine::new(&program);
    assert_eq!(machine.advance(1000), Event::Printed("0".to_string()));
    assert_eq!(machine.environment().get("i"), Some(&Value::Number(0)));
    assert_eq!(machine.advance(1000), Event::Printed("1".to_string()));
    assert_eq!(machine.environment().get("i"), Some(&Value::Number(1)));
    assert_eq!(machine.advance(1000), Event::Printed("2".to_string()));
    assert_eq!(machine.advance(1000), Event::Printed("end".to_string()));
    assert_eq!(machine.advance(1000), Event::Finished);
    assert_eq!(machine.environment().get("i"), Some(&Value::Number(3)));
}

#[test]
fn endless_loop_goes_on_for_as_long_as_it_is_asked_to() {
    let program = program_of("let n := 0; while true { n := n + 1; }");
    let mut machine = Machine::new(&program);
    for _ in 0..50 {
        assert_eq!(machine.advance(1000), Event::Paused);
        assert!(!machine.is_finished());
    }
    match machine.environment().get("n") {
        Some(Value::Number(n)) => assert!(*n > 1000),
        other => panic!("n is {:?}", other),
    }
}

#[test]
fn an_error_stops_the_machine() {
    let program = program_of("print 1; print missing; print 2;");
    let mut machine = Machine::new(&program);
    assert_eq!(machine.advance(100), Event::Printed("1".to_string()));
    assert_eq!(
        machine.advance(100),
        Event::Failed(EvalError::VariableNotFound("missing".to_string()))
    );
    assert!(machine.is_finished());
    assert_eq!(machine.advance(100), Event::Finished);
}

#[test]
fn predicate_that_is_not_true_skips_the_body_in_the_machine() {
    let program = program_of("if 1 { print 1; } while false { print 2; } while \"x\" { print 3; } print 4;");
    let mut machine = Machine::new(&program);
    assert_eq!(drain(&mut machine, 10), (vec!["4".to_string()], Event::Finished));
}

#[test]
fn empty_program_is_finished_after_one_step() {
    let program: Vec<Statement> = Vec::new();
    let mut machine = Machine::new(&program);
    assert!(!machine.is_finished());
    assert_eq!(machine.step(), Event::Paused);
    assert!(machine.is_finished());
    assert_eq!(machine.advance(10), Event::Finished);
}

#[test]
fn machine_and_evaluator_agree() {
    let sources = [
        "let x := 10 + 5; print x;",
        "let s := \"ab\"; print s[1]; print s[2]; print s[0];",
        "let i := 0; while i < 10 { if i in \"x\" { print 0; } print i * i; i := i + 1; }",
        "print \"5\" + 3; print \"abc\" + 3;",
        "let a := 1; while a < 4 { let b := 0; while b < a { print b; b := b + 1; } a := a + 1; }",
        "print 1 == 1; print true != false; print \"a\" in \"cab\"; print x;",
        "",
    ];
    for source in sources {
        let program = program_of(source);
        for budget in [1, 2, 7, 1000] {
            let mut machine = Machine::new(&program);
            let (lines, last) = drain(&mut machine, budget);
            let mut expected = Vec::new();
            let outcome = interpret(source, &mut expected, u64::MAX);
            assert_eq!(lines, expected, "lines of {:?}", source);
            match outcome {
                Ok(env) => {
                    assert_eq!(last, Event::Finished);
                    assert_eq!(machine.environment().len(), env.len());
                    for name in ["x", "s", "i", "a", "b"] {
                        assert_eq!(machine.environment().get(name), env.get(name));
                    }
                },
                Err(bina::interpreter::Error::Eval(e)) => assert_eq!(last, Event::Failed(e)),
                Err(other) => panic!("not a program: {:?}", other),
            }
        }
    }
}

#[test]
fn machine_sums_the_digits_of_each_line() {
    let source = r#"
let quiz_input := "
1abc2
pqr3stu8vwx
a1b2c3d4e5f
treb7uchet
";
let sum := 0;
let index := 0;

while index < 42 {
    let is_first_digit_found := false;
    let first_digit_found := 0;
    let last_digit_found := 0;
    while quiz_input[index] != "\n" {
        if quiz_input[index] in "0123456789" {
            if is_first_digit_found == false {
                first_digit_found := quiz_input[index];
                is_first_digit_found := true;
            } 
            last_digit_found := quiz_input[index];
        }
        index := index + 1;
    }
    let first_digit_found_mult := first_digit_found * 10;
    sum := sum + first_digit_found_mult;
    sum := sum + last_digit_found;
    index := index + 1;
}
print sum;
"#;
    let program = program_of(source);
    let mut machine = Machine::new(&program);
    assert_eq!(drain(&mut machine, 64), (vec!["142".to_string()], Event::Finished));
    assert_eq!(machine.environment().get("sum"), Some(&Value::Number(142)));
    assert_eq!(machine.environment().get("index"), Some(&Value::Number(42)));
}
