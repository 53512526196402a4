use crate::parser::{
    lemma_block_view, Expr, Operator, SpecExpr, SpecStatement, SpecTerm, Statement, Term,
};
use crate::runtime::{
    expr_value, finished, inner_run, lemma_assignment, lemma_block, lemma_guard_skips, lemma_if_true,
    lemma_items_done, lemma_items_next, lemma_while_true, run_items, run_program, run_statement,
    term_value, Effect, SpecEvalError, SpecValue, Value,
};
use crate::text::{
    decimal_text, decimal_value, digit_value, integer_of_text, is_digit, is_substring,
    lemma_wrap_in_range,
};
use vstd::prelude::*;

verus! {

/// The variable that holds the text.
pub open spec fn text_var() -> Seq<char> {
    "quiz_input"@
}

/// The variable that holds the sum so far.
pub open spec fn sum_var() -> Seq<char> {
    "sum"@
}

/// The variable that holds the position in the text.
pub open spec fn index_var() -> Seq<char> {
    "index"@
}

/// The variable that tells whether the line has shown a digit yet.
pub open spec fn found_var() -> Seq<char> {
    "is_first_digit_found"@
}

/// The variable that holds the first digit of the line.
pub open spec fn first_var() -> Seq<char> {
    "first_digit_found"@
}

/// The variable that holds the last digit of the line so far.
pub open spec fn last_var() -> Seq<char> {
    "last_digit_found"@
}

/// The variable that holds ten times the first digit of the line.
pub open spec fn tens_var() -> Seq<char> {
    "first_digit_found_mult"@
}

/// The seven variables of the script are seven different names.
pub proof fn lemma_names_differ()
    ensures
        text_var().len() == 10,
        sum_var().len() == 3,
        index_var().len() == 5,
        found_var().len() == 20,
        first_var().len() == 17,
        last_var().len() == 16,
        tens_var().len() == 22,
{
    reveal_strlit("quiz_input");
    reveal_strlit("sum");
    reveal_strlit("index");
    reveal_strlit("is_first_digit_found");
    reveal_strlit("first_digit_found");
    reveal_strlit("last_digit_found");
    reveal_strlit("first_digit_found_mult");
}

/// The character of the text at the position: `quiz_input[index]`.
pub open spec fn current() -> SpecTerm {
    SpecTerm::VariableIndexed(
        text_var(),
        Box::new(SpecExpr::Single(SpecTerm::Variable(index_var()))),
    )
}

/// `name := value;`
pub open spec fn assign(name: Seq<char>, value: SpecExpr) -> SpecStatement {
    SpecStatement::Assignment(name, value, false)
}

/// `let name := value;`
pub open spec fn declare(name: Seq<char>, value: SpecExpr) -> SpecStatement {
    SpecStatement::Assignment(name, value, true)
}

/// `index := index + 1;`
pub open spec fn move_on() -> SpecStatement {
    assign(
        index_var(),
        SpecExpr::Binary(Operator::Add, SpecTerm::Variable(index_var()), SpecTerm::Integer(1)),
    )
}

/// `if is_first_digit_found == false { first_digit_found := quiz_input[index];
/// is_first_digit_found := true; }`
pub open spec fn note_first() -> SpecStatement {
    SpecStatement::If(
        SpecExpr::Binary(
            Operator::Equality,
            SpecTerm::Variable(found_var()),
            SpecTerm::Boolean(false),
        ),
        Box::new(
            SpecStatement::Block(
                seq![
                    assign(first_var(), SpecExpr::Single(current())),
                    assign(found_var(), SpecExpr::Single(SpecTerm::Boolean(true))),
                ],
            ),
        ),
    )
}

/// `if quiz_input[index] in "0123456789" { ...; last_digit_found := quiz_input[index]; }`
pub open spec fn note_digit() -> SpecStatement {
    SpecStatement::If(
        SpecExpr::Binary(Operator::ContainedIn, current(), SpecTerm::String("0123456789"@)),
        Box::new(
            SpecStatement::Block(
                seq![note_first(), assign(last_var(), SpecExpr::Single(current()))],
            ),
        ),
    )
}

/// The body of the inner loop: look at one character and move on.
pub open spec fn scan_step() -> SpecStatement {
    SpecStatement::Block(seq![note_digit(), move_on()])
}

/// The inner loop: `while quiz_input[index] != "\n" { ... }`
pub open spec fn scan_line() -> SpecStatement {
    SpecStatement::While(
        SpecExpr::Binary(Operator::DisEquality, current(), SpecTerm::String(seq!['\n'])),
        Box::new(scan_step()),
    )
}

/// The body of the outer loop: read one line and add its number to the sum.
pub open spec fn add_line() -> SpecStatement {
    SpecStatement::Block(
        seq![
            declare(found_var(), SpecExpr::Single(SpecTerm::Boolean(false))),
            declare(first_var(), SpecExpr::Single(SpecTerm::Integer(0))),
            declare(last_var(), SpecExpr::Single(SpecTerm::Integer(0))),
            scan_line(),
            declare(
                tens_var(),
                SpecExpr::Binary(
                    Operator::Multiply,
                    SpecTerm::Variable(first_var()),
                    SpecTerm::Integer(10),
                ),
            ),
            assign(
                sum_var(),
                SpecExpr::Binary(
                    Operator::Add,
                    SpecTerm::Variable(sum_var()),
                    SpecTerm::Variable(tens_var()),
                ),
            ),
            assign(
                sum_var(),
                SpecExpr::Binary(
                    Operator::Add,
                    SpecTerm::Variable(sum_var()),
                    SpecTerm::Variable(last_var()),
                ),
            ),
            move_on(),
        ],
    )
}

/// The outer loop: `while index < length { ... }`
pub open spec fn add_lines(length: i64) -> SpecStatement {
    SpecStatement::While(
        SpecExpr::Binary(
            Operator::LessThan,
            SpecTerm::Variable(index_var()),
            SpecTerm::Integer(length),
        ),
        Box::new(add_line()),
    )
}

/// The script that adds up, over the lines of `text`, the two-digit number made of the first
/// and the last digit of each line, and prints the sum. `length` is the number of characters
/// that it reads.
pub open spec fn script(text: Seq<char>, length: i64) -> Seq<SpecStatement> {
    seq![
        declare(text_var(), SpecExpr::Single(SpecTerm::String(text))),
        declare(sum_var(), SpecExpr::Single(SpecTerm::Integer(0))),
        declare(index_var(), SpecExpr::Single(SpecTerm::Integer(0))),
        add_lines(length),
        SpecStatement::Print(SpecExpr::Single(SpecTerm::Variable(sum_var()))),
    ]
}

/// The first and the last digit seen, if any was.
pub struct Digits {
    pub first: Option<char>,
    pub last: Option<char>,
}

/// No digit seen.
pub open spec fn no_digits() -> Digits {
    Digits { first: None, last: None }
}

/// The digits seen once `c` has been looked at.
pub open spec fn note(d: Digits, c: char) -> Digits {
    if is_digit(c) {
        Digits {
            first: if d.first is Some {
                d.first
            } else {
                Some(c)
            },
            last: Some(c),
        }
    } else {
        d
    }
}

/// The digits seen once the characters of `text` from `from` up to `to` have been looked at.
pub open spec fn digits_between(d: Digits, text: Seq<char>, from: int, to: int) -> Digits
    decreases to - from,
{
    if from >= to {
        d
    } else {
        digits_between(note(d, text[from]), text, from + 1, to)
    }
}

/// Where the line that holds position `from` ends: at the next line feed, or at the end of
/// the text.
pub open spec fn line_end(text: Seq<char>, from: int) -> int
    decreases text.len() - from,
{
    if 0 <= from < text.len() && text[from] != '\n' {
        line_end(text, from + 1)
    } else {
        from
    }
}

/// The number that a digit stands for; zero where there is none.
pub open spec fn number_of(c: Option<char>) -> int {
    match c {
        Some(c) => digit_value(c),
        None => 0,
    }
}

/// The number of a line: ten times its first digit plus its last digit; zero if it has none.
pub open spec fn line_value(text: Seq<char>, from: int, to: int) -> int {
    let d = digits_between(no_digits(), text, from, to);
    10 * number_of(d.first) + number_of(d.last)
}

/// The sum of the numbers of the lines of `text` from position `from` on.
pub open spec fn total(text: Seq<char>, from: int) -> int
    decreases
            (if from < text.len() {
                text.len() - from
            } else {
                0
            }),
{
    if 0 <= from < text.len() {
        proof {
            lemma_line_end(text, from);
        }
        line_value(text, from, line_end(text, from)) + total(text, line_end(text, from) + 1)
    } else {
        0
    }
}

/// A line ends at or after each of its positions and within the text, holds no line feed
/// before its end, and ends in a line feed unless the text ends first.
pub proof fn lemma_line_end(text: Seq<char>, from: int)
    requires
        0 <= from <= text.len(),
    ensures
        from <= line_end(text, from) <= text.len(),
        forall|k: int| from <= k < line_end(text, from) ==> text[k] != '\n',
        line_end(text, from) < text.len() ==> text[line_end(text, from)] == '\n',
    decreases text.len() - from,
{
    if from < text.len() && text[from] != '\n' {
        lemma_line_end(text, from + 1);
    }
}

/// Every digit seen is a digit.
pub open spec fn are_digits(d: Digits) -> bool {
    &&& d.first matches Some(c) ==> is_digit(c)
    &&& d.last matches Some(c) ==> is_digit(c)
}

/// Looking at more characters keeps the digits seen digits.
pub proof fn lemma_digits_between(d: Digits, text: Seq<char>, from: int, to: int)
    requires
        are_digits(d),
    ensures
        are_digits(digits_between(d, text, from, to)),
    decreases to - from,
{
    if from < to {
        lemma_digits_between(note(d, text[from]), text, from + 1, to);
    }
}

/// Looking at the characters up to `to` and then at the one at `to` is looking at the
/// characters up to `to + 1`.
pub proof fn lemma_digits_between_next(d: Digits, text: Seq<char>, from: int, to: int)
    requires
        from <= to,
    ensures
        digits_between(d, text, from, to + 1) == note(digits_between(d, text, from, to), text[to]),
    decreases to - from,
{
    if from < to {
        lemma_digits_between_next(note(d, text[from]), text, from + 1, to);
    } else {
        assert(digits_between(note(d, text[from]), text, from + 1, to + 1) == note(
            d,
            text[from],
        ));
    }
}

/// A character is contained in the text of the ten digits if and only if it is a digit.
pub proof fn lemma_digit_in_digits(c: char)
    ensures
        is_substring(seq![c], "0123456789"@) == is_digit(c),
{
    reveal_strlit("0123456789");
    let digits = "0123456789"@;
    if is_digit(c) {
        let i = digit_value(c);
        assert(digits.subrange(i, i + 1) =~= seq![c]);
    }
    if is_substring(seq![c], digits) {
        let i = choose|i: int|
            0 <= i <= digits.len() - 1 && #[trigger] digits.subrange(i, i + 1) == seq![c];
        assert(digits.subrange(i, i + 1)[0] == c);
    }
}

/// The text of one digit spells the number of the digit.
pub proof fn lemma_digit_text(c: char)
    requires
        is_digit(c),
    ensures
        integer_of_text(seq![c]) == Some(digit_value(c) as i64),
{
    let s = seq![c];
    assert(s.drop_last() =~= Seq::<char>::empty());
    assert(decimal_value(s.drop_last()) == 0);
    assert(decimal_value(s) == digit_value(c));
}

/// Whether the variable `name` has the value `value` in `env`.
pub open spec fn holds(env: Map<Seq<char>, SpecValue>, name: Seq<char>, value: SpecValue) -> bool {
    env.contains_key(name) && env[name] == value
}

/// The value that the script keeps for a digit: the digit as a text, or zero for none.
pub open spec fn shown(c: Option<char>) -> SpecValue {
    match c {
        Some(c) => SpecValue::String(seq![c]),
        None => SpecValue::Number(0),
    }
}

/// The state between two lines: the text, the position and the sum.
pub open spec fn between_lines(
    env: Map<Seq<char>, SpecValue>,
    text: Seq<char>,
    index: int,
    sum: int,
) -> bool {
    &&& holds(env, text_var(), SpecValue::String(text))
    &&& holds(env, index_var(), SpecValue::Number(index as i64))
    &&& holds(env, sum_var(), SpecValue::Number(sum as i64))
}

/// The state within a line: that between lines, and the digits seen in the line so far.
pub open spec fn in_line(
    env: Map<Seq<char>, SpecValue>,
    text: Seq<char>,
    index: int,
    sum: int,
    d: Digits,
) -> bool {
    &&& between_lines(env, text, index, sum)
    &&& holds(env, found_var(), SpecValue::Boolean(d.first is Some))
    &&& holds(env, first_var(), shown(d.first))
    &&& holds(env, last_var(), shown(d.last))
}

/// The longest text that the statements below are proved for.
pub open spec fn longest() -> int {
    0x1_0000_0000
}

/// `quiz_input[index]` is the character of the text at the position.
pub proof fn lemma_current(env: Map<Seq<char>, SpecValue>, text: Seq<char>, index: int)
    requires
        holds(env, text_var(), SpecValue::String(text)),
        holds(env, index_var(), SpecValue::Number(index as i64)),
        0 <= index < text.len() < longest(),
    ensures
        term_value(env, current()) == Ok::<SpecValue, SpecEvalError>(
            SpecValue::String(seq![text[index]]),
        ),
        expr_value(env, SpecExpr::Single(current())) == Ok::<SpecValue, SpecEvalError>(
            SpecValue::String(seq![text[index]]),
        ),
{
    reveal_with_fuel(term_value, 3);
    reveal_with_fuel(expr_value, 3);
}

/// `if is_first_digit_found == false { ... }` keeps the character at the position as the
/// first digit unless there is one already.
pub proof fn lemma_note_first(
    env: Map<Seq<char>, SpecValue>,
    text: Seq<char>,
    index: int,
    sum: int,
    d: Digits,
    fuel: nat,
) -> (next: Map<Seq<char>, SpecValue>)
    requires
        in_line(env, text, index, sum, d),
        0 <= index < text.len() < longest(),
    ensures
        run_statement(note_first(), env, fuel) == finished(next),
        in_line(
            next,
            text,
            index,
            sum,
            Digits {
                first: if d.first is Some {
                    d.first
                } else {
                    Some(text[index])
                },
                last: d.last,
            },
        ),
{
    lemma_names_differ();
    let predicate = SpecExpr::Binary(
        Operator::Equality,
        SpecTerm::Variable(found_var()),
        SpecTerm::Boolean(false),
    );
    let first = assign(first_var(), SpecExpr::Single(current()));
    let second = assign(found_var(), SpecExpr::Single(SpecTerm::Boolean(true)));
    let items = seq![first, second];
    assert(expr_value(env, predicate) == Ok::<SpecValue, SpecEvalError>(
        SpecValue::Boolean(d.first is None),
    ));
    if d.first is None {
        lemma_if_true(predicate, SpecStatement::Block(items), env, fuel);
        lemma_block(items, env, fuel);
        lemma_current(env, text, index);
        let c = SpecValue::String(seq![text[index]]);
        let one = env.insert(first_var(), c);
        lemma_assignment(first_var(), SpecExpr::Single(current()), false, env, fuel, c);
        let two = one.insert(found_var(), SpecValue::Boolean(true));
        lemma_assignment(
            found_var(),
            SpecExpr::Single(SpecTerm::Boolean(true)),
            false,
            one,
            fuel,
            SpecValue::Boolean(true),
        );
        lemma_items_done(items, env, fuel);
        lemma_items_next(items, 0, env, fuel, one);
        lemma_items_next(items, 1, one, fuel, two);
        lemma_items_done(items, two, fuel);
        two
    } else {
        lemma_guard_skips(
            predicate,
            SpecStatement::Block(items),
            env,
            fuel,
            SpecValue::Boolean(false),
        );
        env
    }
}

/// `if quiz_input[index] in "0123456789" { ... }` notes the character at the position if it
/// is a digit.
pub proof fn lemma_note_digit(
    env: Map<Seq<char>, SpecValue>,
    text: Seq<char>,
    index: int,
    sum: int,
    d: Digits,
    fuel: nat,
) -> (next: Map<Seq<char>, SpecValue>)
    requires
        in_line(env, text, index, sum, d),
        0 <= index < text.len() < longest(),
    ensures
        run_statement(note_digit(), env, fuel) == finished(next),
        in_line(next, text, index, sum, note(d, text[index])),
{
    lemma_names_differ();
    let predicate = SpecExpr::Binary(
        Operator::ContainedIn,
        current(),
        SpecTerm::String("0123456789"@),
    );
    let last = assign(last_var(), SpecExpr::Single(current()));
    let items = seq![note_first(), last];
    lemma_current(env, text, index);
    lemma_digit_in_digits(text[index]);
    assert(expr_value(env, predicate) == Ok::<SpecValue, SpecEvalError>(
        SpecValue::Boolean(is_digit(text[index])),
    ));
    if is_digit(text[index]) {
        lemma_if_true(predicate, SpecStatement::Block(items), env, fuel);
        lemma_block(items, env, fuel);
        let one = lemma_note_first(env, text, index, sum, d, fuel);
        lemma_current(one, text, index);
        let c = SpecValue::String(seq![text[index]]);
        let two = one.insert(last_var(), c);
        lemma_assignment(last_var(), SpecExpr::Single(current()), false, one, fuel, c);
        lemma_items_done(items, env, fuel);
        lemma_items_next(items, 0, env, fuel, one);
        lemma_items_next(items, 1, one, fuel, two);
        lemma_items_done(items, two, fuel);
        two
    } else {
        lemma_guard_skips(
            predicate,
            SpecStatement::Block(items),
            env,
            fuel,
            SpecValue::Boolean(false),
        );
        env
    }
}

/// `index := index + 1;` moves the position on by one.
pub proof fn lemma_move_on(env: Map<Seq<char>, SpecValue>, index: int, fuel: nat) -> (next: Map<
    Seq<char>,
    SpecValue,
>)
    requires
        holds(env, index_var(), SpecValue::Number(index as i64)),
        0 <= index < longest(),
    ensures
        run_statement(move_on(), env, fuel) == finished(next),
        next == env.insert(index_var(), SpecValue::Number((index + 1) as i64)),
{
    let value = SpecExpr::Binary(
        Operator::Add,
        SpecTerm::Variable(index_var()),
        SpecTerm::Integer(1),
    );
    lemma_wrap_in_range(index + 1);
    let v = SpecValue::Number((index + 1) as i64);
    assert(expr_value(env, value) == Ok::<SpecValue, SpecEvalError>(v));
    lemma_assignment(index_var(), value, false, env, fuel, v);
    env.insert(index_var(), v)
}

/// The body of the inner loop notes the character at the position and moves on.
pub proof fn lemma_scan_step(
    env: Map<Seq<char>, SpecValue>,
    text: Seq<char>,
    index: int,
    sum: int,
    d: Digits,
    fuel: nat,
) -> (next: Map<Seq<char>, SpecValue>)
    requires
        in_line(env, text, index, sum, d),
        0 <= index < text.len() < longest(),
    ensures
        run_statement(scan_step(), env, fuel) == finished(next),
        in_line(next, text, index + 1, sum, note(d, text[index])),
{
    lemma_names_differ();
    let items = seq![note_digit(), move_on()];
    lemma_block(items, env, fuel);
    let one = lemma_note_digit(env, text, index, sum, d, fuel);
    let two = lemma_move_on(one, index, fuel);
    lemma_items_done(items, env, fuel);
    lemma_items_next(items, 0, env, fuel, one);
    lemma_items_next(items, 1, one, fuel, two);
    lemma_items_done(items, two, fuel);
    two
}

/// The inner loop reads on to the end of the line and notes its digits.
pub proof fn lemma_scan_line(
    env: Map<Seq<char>, SpecValue>,
    text: Seq<char>,
    index: int,
    sum: int,
    d: Digits,
    fuel: nat,
) -> (next: Map<Seq<char>, SpecValue>)
    requires
        in_line(env, text, index, sum, d),
        0 <= index < text.len() < longest(),
        line_end(text, index) < text.len(),
        fuel >= line_end(text, index) - index,
    ensures
        run_statement(scan_line(), env, fuel) == finished(next),
        in_line(
            next,
            text,
            line_end(text, index),
            sum,
            digits_between(d, text, index, line_end(text, index)),
        ),
    decreases text.len() - index,
{
    lemma_names_differ();
    let predicate = SpecExpr::Binary(
        Operator::DisEquality,
        current(),
        SpecTerm::String(seq!['\n']),
    );
    let c = text[index];
    lemma_current(env, text, index);
    assert((seq![c] != seq!['\n']) == (c != '\n')) by {
        if c != '\n' {
            assert(seq![c][0] != seq!['\n'][0]);
        }
    }
    assert(expr_value(env, predicate) == Ok::<SpecValue, SpecEvalError>(
        SpecValue::Boolean(c != '\n'),
    ));
    if c == '\n' {
        lemma_guard_skips(predicate, scan_step(), env, fuel, SpecValue::Boolean(false));
        env
    } else {
        lemma_line_end(text, index + 1);
        let one = lemma_scan_step(env, text, index, sum, d, (fuel - 1) as nat);
        lemma_while_true(predicate, scan_step(), env, fuel, one);
        lemma_scan_line(one, text, index + 1, sum, note(d, c), (fuel - 1) as nat)
    }
}

/// The number of a line lies between 0 and 99.
pub proof fn lemma_line_value(text: Seq<char>, from: int, to: int)
    ensures
        0 <= line_value(text, from, to) <= 99,
{
    lemma_digits_between(no_digits(), text, from, to);
}

/// The body of the outer loop reads one line and adds its number to the sum.
pub proof fn lemma_add_line(
    env: Map<Seq<char>, SpecValue>,
    text: Seq<char>,
    index: int,
    sum: int,
    fuel: nat,
) -> (next: Map<Seq<char>, SpecValue>)
    requires
        between_lines(env, text, index, sum),
        0 <= index < text.len() < longest(),
        line_end(text, index) < text.len(),
        0 <= sum <= 99 * index,
        fuel >= line_end(text, index) - index,
    ensures
        run_statement(add_line(), env, fuel) == finished(next),
        between_lines(
            next,
            text,
            line_end(text, index) + 1,
            sum + line_value(text, index, line_end(text, index)),
        ),
{
    lemma_names_differ();
    lemma_line_end(text, index);
    let end = line_end(text, index);
    let items = add_line()->Block_0;
    lemma_block(items, env, fuel);
    lemma_items_done(items, env, fuel);
    // let is_first_digit_found := false; let first_digit_found := 0; let last_digit_found := 0;
    let e1 = env.insert(found_var(), SpecValue::Boolean(false));
    lemma_assignment(
        found_var(),
        SpecExpr::Single(SpecTerm::Boolean(false)),
        true,
        env,
        fuel,
        SpecValue::Boolean(false),
    );
    lemma_items_next(items, 0, env, fuel, e1);
    let e2 = e1.insert(first_var(), SpecValue::Number(0));
    lemma_assignment(
        first_var(),
        SpecExpr::Single(SpecTerm::Integer(0)),
        true,
        e1,
        fuel,
        SpecValue::Number(0),
    );
    lemma_items_next(items, 1, e1, fuel, e2);
    let e3 = e2.insert(last_var(), SpecValue::Number(0));
    lemma_assignment(
        last_var(),
        SpecExpr::Single(SpecTerm::Integer(0)),
        true,
        e2,
        fuel,
        SpecValue::Number(0),
    );
    lemma_items_next(items, 2, e2, fuel, e3);
    // The inner loop.
    assert(in_line(e3, text, index, sum, no_digits()));
    let e4 = lemma_scan_line(e3, text, index, sum, no_digits(), fuel);
    lemma_items_next(items, 3, e3, fuel, e4);
    let d = digits_between(no_digits(), text, index, end);
    lemma_digits_between(no_digits(), text, index, end);
    let first = number_of(d.first);
    let last = number_of(d.last);
    // let first_digit_found_mult := first_digit_found * 10;
    let tens = SpecExpr::Binary(
        Operator::Multiply,
        SpecTerm::Variable(first_var()),
        SpecTerm::Integer(10),
    );
    lemma_wrap_in_range(first * 10);
    if let Some(c) = d.first {
        lemma_digit_text(c);
    }
    assert(expr_value(e4, tens) == Ok::<SpecValue, SpecEvalError>(
        SpecValue::Number((first * 10) as i64),
    ));
    let e5 = e4.insert(tens_var(), SpecValue::Number((first * 10) as i64));
    lemma_assignment(tens_var(), tens, true, e4, fuel, SpecValue::Number((first * 10) as i64));
    lemma_items_next(items, 4, e4, fuel, e5);
    // sum := sum + first_digit_found_mult;
    let more = SpecExpr::Binary(
        Operator::Add,
        SpecTerm::Variable(sum_var()),
        SpecTerm::Variable(tens_var()),
    );
    lemma_wrap_in_range(sum + first * 10);
    assert(expr_value(e5, more) == Ok::<SpecValue, SpecEvalError>(
        SpecValue::Number((sum + first * 10) as i64),
    ));
    let e6 = e5.insert(sum_var(), SpecValue::Number((sum + first * 10) as i64));
    lemma_assignment(
        sum_var(),
        more,
        false,
        e5,
        fuel,
        SpecValue::Number((sum + first * 10) as i64),
    );
    lemma_items_next(items, 5, e5, fuel, e6);
    // sum := sum + last_digit_found;
    let most = SpecExpr::Binary(
        Operator::Add,
        SpecTerm::Variable(sum_var()),
        SpecTerm::Variable(last_var()),
    );
    lemma_wrap_in_range(sum + first * 10 + last);
    if let Some(c) = d.last {
        lemma_digit_text(c);
    }
    assert(expr_value(e6, most) == Ok::<SpecValue, SpecEvalError>(
        SpecValue::Number((sum + first * 10 + last) as i64),
    ));
    let e7 = e6.insert(sum_var(), SpecValue::Number((sum + first * 10 + last) as i64));
    lemma_assignment(
        sum_var(),
        most,
        false,
        e6,
        fuel,
        SpecValue::Number((sum + first * 10 + last) as i64),
    );
    lemma_items_next(items, 6, e6, fuel, e7);
    // index := index + 1;
    let e8 = lemma_move_on(e7, end, fuel);
    lemma_items_next(items, 7, e7, fuel, e8);
    lemma_items_done(items, e8, fuel);
    e8
}

/// Whether every line of `text` ends in a line feed: the text is empty or ends in one.
pub open spec fn lines_are_closed(text: Seq<char>) -> bool {
    text.len() > 0 ==> text.last() == '\n'
}

/// The outer loop adds the numbers of the lines from the position on to the sum.
pub proof fn lemma_add_lines(
    env: Map<Seq<char>, SpecValue>,
    text: Seq<char>,
    index: int,
    sum: int,
    fuel: nat,
) -> (next: Map<Seq<char>, SpecValue>)
    requires
        between_lines(env, text, index, sum),
        0 <= index <= text.len() < longest(),
        lines_are_closed(text),
        0 <= sum <= 99 * index,
        fuel > text.len() - index,
    ensures
        run_statement(add_lines(text.len() as i64), env, fuel) == finished(next),
        between_lines(next, text, text.len() as int, sum + total(text, index)),
        0 <= sum + total(text, index) <= 99 * text.len(),
    decreases text.len() - index,
{
    lemma_names_differ();
    let predicate = SpecExpr::Binary(
        Operator::LessThan,
        SpecTerm::Variable(index_var()),
        SpecTerm::Integer(text.len() as i64),
    );
    assert(expr_value(env, predicate) == Ok::<SpecValue, SpecEvalError>(
        SpecValue::Boolean(index < text.len()),
    ));
    if index == text.len() {
        lemma_guard_skips(predicate, add_line(), env, fuel, SpecValue::Boolean(false));
        env
    } else {
        lemma_line_end(text, index);
        let end = line_end(text, index);
        assert(end < text.len()) by {
            if end == text.len() {
                assert(text[text.len() - 1] != '\n');
            }
        }
        lemma_line_value(text, index, end);
        let one = lemma_add_line(env, text, index, sum, (fuel - 1) as nat);
        lemma_while_true(predicate, add_line(), env, fuel, one);
        lemma_add_lines(
            one,
            text,
            end + 1,
            sum + line_value(text, index, end),
            (fuel - 1) as nat,
        )
    }
}

/// The script prints the sum of the numbers of the lines of its text, for every text whose
/// lines are closed: with enough fuel for every character, it reads to the end of the text
/// without an error, prints one line, the sum in decimal, and ends with the sum in `sum` and
/// the length of the text in `index`.
pub proof fn lemma_script_sums_lines(text: Seq<char>, fuel: nat)
    requires
        text.len() < longest(),
        lines_are_closed(text),
        fuel > text.len(),
    ensures
        run_program(script(text, text.len() as i64), fuel).printed == seq![
            decimal_text(total(text, 0)),
        ],
        run_program(script(text, text.len() as i64), fuel).result matches Ok(env)
            && between_lines(env, text, text.len() as int, total(text, 0)),
{
    lemma_names_differ();
    let items = script(text, text.len() as i64);
    let env = Map::<Seq<char>, SpecValue>::empty();
    lemma_items_done(items, env, fuel);
    let e1 = env.insert(text_var(), SpecValue::String(text));
    lemma_assignment(
        text_var(),
        SpecExpr::Single(SpecTerm::String(text)),
        true,
        env,
        fuel,
        SpecValue::String(text),
    );
    lemma_items_next(items, 0, env, fuel, e1);
    let e2 = e1.insert(sum_var(), SpecValue::Number(0));
    lemma_assignment(
        sum_var(),
        SpecExpr::Single(SpecTerm::Integer(0)),
        true,
        e1,
        fuel,
        SpecValue::Number(0),
    );
    lemma_items_next(items, 1, e1, fuel, e2);
    let e3 = e2.insert(index_var(), SpecValue::Number(0));
    lemma_assignment(
        index_var(),
        SpecExpr::Single(SpecTerm::Integer(0)),
        true,
        e2,
        fuel,
        SpecValue::Number(0),
    );
    lemma_items_next(items, 2, e2, fuel, e3);
    let e4 = lemma_add_lines(e3, text, 0, 0, fuel);
    lemma_items_next(items, 3, e3, fuel, e4);
    // print sum;
    let last = items.skip(4);
    assert(last[0] == items[4]);
    assert(last.drop_first() =~= Seq::<SpecStatement>::empty());
    let line = decimal_text(total(text, 0));
    assert(run_statement(items[4], e4, fuel) == (Effect { printed: seq![line], result: Ok(e4) }));
    assert(run_items(last.drop_first(), e4, fuel) == finished(e4));
    assert(seq![line] + Seq::<Seq<char>>::empty() =~= seq![line]);
}

/// A text of five lines, the first of them empty, whose numbers are 0, 12, 38, 15 and 77.
pub open spec fn sample() -> Seq<char> {
    "\n1abc2\npqr3stu8vwx\na1b2c3d4e5f\ntreb7uchet\n"@
}

/// The sample has 42 characters, its lines are closed, and their numbers add up to 142.
pub proof fn lemma_sample_total()
    ensures
        sample().len() == 42,
        lines_are_closed(sample()),
        total(sample(), 0) == 142,
{
    reveal_strlit("\n1abc2\npqr3stu8vwx\na1b2c3d4e5f\ntreb7uchet\n");
    let t = sample();
    assert(line_end(t, 0) == 0);
    assert(line_end(t, 1) == 6) by {
        reveal_with_fuel(line_end, 7);
    }
    assert(line_end(t, 7) == 18) by {
        reveal_with_fuel(line_end, 13);
    }
    assert(line_end(t, 19) == 30) by {
        reveal_with_fuel(line_end, 13);
    }
    assert(line_end(t, 31) == 41) by {
        reveal_with_fuel(line_end, 12);
    }
    assert(line_value(t, 0, 0) == 0);
    assert(line_value(t, 1, 6) == 12) by {
        reveal_with_fuel(digits_between, 7);
    }
    assert(line_value(t, 7, 18) == 38) by {
        reveal_with_fuel(digits_between, 13);
    }
    assert(line_value(t, 19, 30) == 15) by {
        reveal_with_fuel(digits_between, 13);
    }
    assert(line_value(t, 31, 41) == 77) by {
        reveal_with_fuel(digits_between, 12);
    }
    assert(total(t, 42) == 0);
    assert(total(t, 31) == 77);
    assert(total(t, 19) == 92);
    assert(total(t, 7) == 130);
    assert(total(t, 1) == 142);
}

/// Run on the sample, the script prints `142` and ends with 142 in `sum` and 42 in `index`.
pub proof fn lemma_sample_sum(fuel: nat)
    requires
        fuel > 42,
    ensures
        run_program(script(sample(), 42), fuel).printed == seq!["142"@],
        run_program(script(sample(), 42), fuel).result matches Ok(env) && between_lines(
            env,
            sample(),
            42,
            142,
        ),
{
    lemma_sample_total();
    lemma_script_sums_lines(sample(), fuel);
    reveal_strlit("142");
    assert(decimal_text(142) =~= "142"@) by {
        reveal_with_fuel(crate::text::digits_of, 4);
    }
}

fn variable(name: &str) -> (term: Term)
    ensures
        term.deep_view() == SpecTerm::Variable(name@),
{
    Term::Variable(String::from_str(name))
}

fn current_term() -> (term: Term)
    ensures
        term.deep_view() == current(),
{
    Term::VariableIndexed(
        String::from_str("quiz_input"),
        Box::new(Expr::TermWrapper(variable("index"))),
    )
}

fn set(name: &str, value: Expr, declares: bool) -> (statement: Statement)
    ensures
        statement.deep_view() == SpecStatement::Assignment(name@, value.deep_view(), declares),
{
    Statement::Assignment(String::from_str(name), Box::new(value), declares)
}

fn pair(first: Statement, second: Statement) -> (block: Statement)
    ensures
        block.deep_view() == SpecStatement::Block(seq![first.deep_view(), second.deep_view()]),
{
    let mut items: Vec<Statement> = Vec::new();
    items.push(first);
    items.push(second);
    proof {
        lemma_block_view(items);
        assert(items.deep_view() =~= seq![first.deep_view(), second.deep_view()]);
    }
    Statement::Block(items)
}

fn move_on_statement() -> (statement: Statement)
    ensures
        statement.deep_view() == move_on(),
{
    set("index", Expr::Add(Box::new(variable("index")), Box::new(Term::Integer(1))), false)
}

fn note_first_statement() -> (statement: Statement)
    ensures
        statement.deep_view() == note_first(),
{
    Statement::If(
        Box::new(
            Expr::Equality(
                Box::new(variable("is_first_digit_found")),
                Box::new(Term::Boolean(false)),
            ),
        ),
        Box::new(
            pair(
                set("first_digit_found", Expr::TermWrapper(current_term()), false),
                set("is_first_digit_found", Expr::TermWrapper(Term::Boolean(true)), false),
            ),
        ),
    )
}

fn note_digit_statement() -> (statement: Statement)
    ensures
        statement.deep_view() == note_digit(),
{
    Statement::If(
        Box::new(
            Expr::ContainedIn(
                Box::new(current_term()),
                Box::new(Term::String(String::from_str("0123456789"))),
            ),
        ),
        Box::new(
            pair(
                note_first_statement(),
                set("last_digit_found", Expr::TermWrapper(current_term()), false),
            ),
        ),
    )
}

fn scan_line_statement() -> (statement: Statement)
    ensures
        statement.deep_view() == scan_line(),
{
    proof {
        reveal_strlit("\n");
        assert("\n"@ =~= seq!['\n']);
    }
    Statement::While(
        Box::new(
            Expr::DisEquality(
                Box::new(current_term()),
                Box::new(Term::String(String::from_str("\n"))),
            ),
        ),
        Box::new(pair(note_digit_statement(), move_on_statement())),
    )
}

fn add_line_statement() -> (statement: Statement)
    ensures
        statement.deep_view() == add_line(),
{
    let mut items: Vec<Statement> = Vec::new();
    items.push(set("is_first_digit_found", Expr::TermWrapper(Term::Boolean(false)), true));
    items.push(set("first_digit_found", Expr::TermWrapper(Term::Integer(0)), true));
    items.push(set("last_digit_found", Expr::TermWrapper(Term::Integer(0)), true));
    items.push(scan_line_statement());
    items.push(
        set(
            "first_digit_found_mult",
            Expr::Multiply(Box::new(variable("first_digit_found")), Box::new(Term::Integer(10))),
            true,
        ),
    );
    items.push(
        set(
            "sum",
            Expr::Add(Box::new(variable("sum")), Box::new(variable("first_digit_found_mult"))),
            false,
        ),
    );
    items.push(
        set(
            "sum",
            Expr::Add(Box::new(variable("sum")), Box::new(variable("last_digit_found"))),
            false,
        ),
    );
    items.push(move_on_statement());
    proof {
        lemma_block_view(items);
        assert(items.deep_view() =~= add_line()->Block_0);
    }
    Statement::Block(items)
}

/// The script as a program, for the text `text` and the length `length`.
pub fn program(text: &str, length: i64) -> (statements: Vec<Statement>)
    ensures
        statements.deep_view() == script(text@, length),
{
    let mut statements: Vec<Statement> = Vec::new();
    statements.push(
        set("quiz_input", Expr::TermWrapper(Term::String(String::from_str(text))), true),
    );
    statements.push(set("sum", Expr::TermWrapper(Term::Integer(0)), true));
    statements.push(set("index", Expr::TermWrapper(Term::Integer(0)), true));
    statements.push(
        Statement::While(
            Box::new(Expr::LessThan(Box::new(variable("index")), Box::new(Term::Integer(length)))),
            Box::new(add_line_statement()),
        ),
    );
    statements.push(Statement::Print(Box::new(Expr::TermWrapper(variable("sum")))));
    assert(statements.deep_view() =~= script(text@, length));
    statements
}

/// The sum of the numbers of the lines of `text`, computed by running the script on it;
/// `None` for a text whose last line is not closed, or of 2^32 characters or more.
pub fn sum_of_lines(text: &str) -> (sum: Option<i64>)
    ensures
        sum == if text@.len() < longest() && lines_are_closed(text@) {
            Some(total(text@, 0) as i64)
        } else {
            None
        },
{
    let length = text.unicode_len();
    if length as u64 >= 0x1_0000_0000u64 {
        return None;
    }
    if length > 0 && text.get_char(length - 1) != '\n' {
        return None;
    }
    let statements = program(text, length as i64);
    let mut lines: Vec<String> = Vec::new();
    proof {
        lemma_script_sums_lines(text@, (length + 1) as nat);
    }
    match inner_run(&statements, &mut lines, length as u64 + 1) {
        Ok(env) => match env.get("sum") {
            Some(Value::Number(n)) => Some(*n),
            _ => None,
        },
        Err(_) => None,
    }
}

} // verus!
