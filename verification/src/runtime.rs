use crate::parser::{
    lemma_block_view, Expr, Operator, SpecExpr, SpecStatement, SpecTerm, Statement, Term,
};
use crate::text::{
    contains, decimal_text, integer_of_text, is_substring, lemma_wrap_add, lemma_wrap_mul,
    number_text, parse_integer, wrap_i64,
};
use vstd::hash_map::StringHashMap;
use vstd::prelude::*;

verus! {

/// What an expression evaluates to.
#[derive(Debug, PartialEq)]
pub enum Value {
    Number(i64),
    Boolean(bool),
    String(String),
}

/// The mathematical model of a [`Value`].
pub enum SpecValue {
    Number(i64),
    Boolean(bool),
    String(Seq<char>),
}

impl DeepView for Value {
    type V = SpecValue;

    open spec fn deep_view(&self) -> SpecValue {
        match *self {
            Value::Number(n) => SpecValue::Number(n),
            Value::Boolean(b) => SpecValue::Boolean(b),
            Value::String(s) => SpecValue::String(s@),
        }
    }
}

impl Clone for Value {
    fn clone(&self) -> (copy: Self)
        ensures
            copy.deep_view() == self.deep_view(),
    {
        match self {
            Value::Number(n) => Value::Number(*n),
            Value::Boolean(b) => Value::Boolean(*b),
            Value::String(s) => Value::String(s.clone()),
        }
    }
}

/// Why a program stopped before its end.
#[derive(Debug, PartialEq)]
pub enum EvalError {
    /// A variable was read that nothing had been assigned to.
    VariableNotFound(String),
    /// An index was applied to a value that is no string, or the index is no number: the
    /// variable's value, then the index.
    NotIndexable(Value, Value),
    /// The index is negative, or not less than the number of characters of the string.
    IndexOutOfBounds(i64),
    /// The operator has no meaning on these two operands.
    InvalidOperands(Operator, Value, Value),
    /// A string operand of `+` or `*` that is no numeral of a 64-bit signed integer.
    NotANumber(String),
    /// An operator that the syntax tree can hold and the evaluator does not implement.
    Unimplemented(Operator),
    /// A loop went on when the fuel was used up.
    OutOfFuel,
}

/// The mathematical model of an [`EvalError`].
pub enum SpecEvalError {
    VariableNotFound(Seq<char>),
    NotIndexable(SpecValue, SpecValue),
    IndexOutOfBounds(i64),
    InvalidOperands(Operator, SpecValue, SpecValue),
    NotANumber(Seq<char>),
    Unimplemented(Operator),
    OutOfFuel,
}

impl DeepView for EvalError {
    type V = SpecEvalError;

    open spec fn deep_view(&self) -> SpecEvalError {
        match *self {
            EvalError::VariableNotFound(name) => SpecEvalError::VariableNotFound(name@),
            EvalError::NotIndexable(base, index) => SpecEvalError::NotIndexable(
                base.deep_view(),
                index.deep_view(),
            ),
            EvalError::IndexOutOfBounds(n) => SpecEvalError::IndexOutOfBounds(n),
            EvalError::InvalidOperands(op, left, right) => SpecEvalError::InvalidOperands(
                op,
                left.deep_view(),
                right.deep_view(),
            ),
            EvalError::NotANumber(s) => SpecEvalError::NotANumber(s@),
            EvalError::Unimplemented(op) => SpecEvalError::Unimplemented(op),
            EvalError::OutOfFuel => SpecEvalError::OutOfFuel,
        }
    }
}

/// The one character of a string value that an index value selects.
pub open spec fn char_of(base: SpecValue, index: SpecValue) -> Result<SpecValue, SpecEvalError> {
    match (base, index) {
        (SpecValue::String(s), SpecValue::Number(n)) => {
            if 0 <= n < s.len() {
                Ok(SpecValue::String(seq![s[n as int]]))
            } else {
                Err(SpecEvalError::IndexOutOfBounds(n))
            }
        },
        _ => Err(SpecEvalError::NotIndexable(base, index)),
    }
}

/// The sum (for `Add`) or the product of two numbers, reduced modulo 2^64.
pub open spec fn arithmetic(op: Operator, left: i64, right: i64) -> i64 {
    if op == Operator::Add {
        wrap_i64(left + right)
    } else {
        wrap_i64(left * right)
    }
}

/// What a binary relation gives on two values.
///
/// `+` and `*` take two numbers, or a number and a string that spells one. `in` tells
/// whether the right string contains the left one.
pub open spec fn operate(op: Operator, left: SpecValue, right: SpecValue) -> Result<
    SpecValue,
    SpecEvalError,
> {
    let invalid = Err(SpecEvalError::InvalidOperands(op, left, right));
    match op {
        Operator::Add | Operator::Multiply => match (left, right) {
            (SpecValue::Number(l), SpecValue::Number(r)) => Ok(
                SpecValue::Number(arithmetic(op, l, r)),
            ),
            (SpecValue::String(s), SpecValue::Number(r)) => match integer_of_text(s) {
                Some(l) => Ok(SpecValue::Number(arithmetic(op, l, r))),
                None => Err(SpecEvalError::NotANumber(s)),
            },
            (SpecValue::Number(l), SpecValue::String(s)) => match integer_of_text(s) {
                Some(r) => Ok(SpecValue::Number(arithmetic(op, l, r))),
                None => Err(SpecEvalError::NotANumber(s)),
            },
            _ => invalid,
        },
        Operator::Equality => match (left, right) {
            (SpecValue::Number(l), SpecValue::Number(r)) => Ok(SpecValue::Boolean(l == r)),
            (SpecValue::Boolean(l), SpecValue::Boolean(r)) => Ok(SpecValue::Boolean(l == r)),
            _ => invalid,
        },
        Operator::DisEquality => match (left, right) {
            (SpecValue::Number(l), SpecValue::Number(r)) => Ok(SpecValue::Boolean(l != r)),
            (SpecValue::Boolean(l), SpecValue::Boolean(r)) => Ok(SpecValue::Boolean(l != r)),
            (SpecValue::String(l), SpecValue::String(r)) => Ok(SpecValue::Boolean(l != r)),
            _ => invalid,
        },
        Operator::LessThan => match (left, right) {
            (SpecValue::Number(l), SpecValue::Number(r)) => Ok(SpecValue::Boolean(l < r)),
            _ => invalid,
        },
        Operator::ContainedIn => match (left, right) {
            (SpecValue::String(l), SpecValue::String(r)) => Ok(
                SpecValue::Boolean(is_substring(l, r)),
            ),
            _ => invalid,
        },
        Operator::LogicalOr => Err(SpecEvalError::Unimplemented(op)),
    }
}

/// The value of a term in an environment.
pub open spec fn term_value(env: Map<Seq<char>, SpecValue>, term: SpecTerm) -> Result<
    SpecValue,
    SpecEvalError,
>
    decreases term,
{
    match term {
        SpecTerm::Integer(n) => Ok(SpecValue::Number(n)),
        SpecTerm::String(s) => Ok(SpecValue::String(s)),
        SpecTerm::Boolean(b) => Ok(SpecValue::Boolean(b)),
        SpecTerm::Variable(name) => {
            if env.contains_key(name) {
                Ok(env[name])
            } else {
                Err(SpecEvalError::VariableNotFound(name))
            }
        },
        SpecTerm::VariableIndexed(name, index) => {
            if env.contains_key(name) {
                match expr_value(env, *index) {
                    Err(e) => Err(e),
                    Ok(i) => char_of(env[name], i),
                }
            } else {
                Err(SpecEvalError::VariableNotFound(name))
            }
        },
    }
}

/// The value of an expression in an environment. The left operand is evaluated first; the
/// operands of an operator that is not implemented are not evaluated.
pub open spec fn expr_value(env: Map<Seq<char>, SpecValue>, expr: SpecExpr) -> Result<
    SpecValue,
    SpecEvalError,
>
    decreases expr,
{
    match expr {
        SpecExpr::Single(term) => term_value(env, term),
        SpecExpr::Binary(Operator::LogicalOr, _, _) => Err(
            SpecEvalError::Unimplemented(Operator::LogicalOr),
        ),
        SpecExpr::Binary(op, left, right) => operate_on(
            op,
            term_value(env, left),
            term_value(env, right),
        ),
    }
}

/// The text that `print` writes for a value.
pub open spec fn value_text(value: SpecValue) -> Seq<char> {
    match value {
        SpecValue::Number(n) => decimal_text(n as int),
        SpecValue::Boolean(b) => if b {
            "true"@
        } else {
            "false"@
        },
        SpecValue::String(s) => s,
    }
}

/// The model of what evaluating a term or an expression returns.
pub open spec fn value_view(r: Result<Value, EvalError>) -> Result<SpecValue, SpecEvalError> {
    match r {
        Ok(value) => Ok(value.deep_view()),
        Err(e) => Err(e.deep_view()),
    }
}

/// The variables of a program and their values. There is one environment for the whole
/// program: blocks open no scope of their own.
pub struct Environment {
    vars: StringHashMap<Value>,
}

impl View for Environment {
    type V = Map<Seq<char>, SpecValue>;

    closed spec fn view(&self) -> Map<Seq<char>, SpecValue> {
        self.vars@.map_values(|value: Value| value.deep_view())
    }
}

impl Environment {
    /// The environment in which no variable has a value.
    pub fn new() -> (env: Self)
        ensures
            env@ == Map::<Seq<char>, SpecValue>::empty(),
    {
        let env = Environment { vars: StringHashMap::new() };
        assert(env@ =~= Map::<Seq<char>, SpecValue>::empty());
        env
    }

    /// The value of the variable `name`, if it has one.
    pub fn get(&self, name: &str) -> (r: Option<&Value>)
        ensures
            match r {
                Some(value) => self@.contains_key(name@) && value.deep_view() == self@[name@],
                None => !self@.contains_key(name@),
            },
    {
        self.vars.get(name)
    }

    /// Gives the variable `name` the value `value`, whether or not it had one.
    pub fn insert(&mut self, name: String, value: Value)
        ensures
            final(self)@ == old(self)@.insert(name@, value.deep_view()),
    {
        self.vars.insert(name, value);
        assert(self@ =~= old(self)@.insert(name@, value.deep_view()));
    }

    /// The number of variables that have a value.
    pub fn len(&self) -> (r: usize)
        ensures
            r == self@.len(),
    {
        broadcast use vstd::hash_map::group_hash_map_axioms;

        assert(self@.dom() =~= self.vars@.dom());
        self.vars.len()
    }
}

fn calculate(op: Operator, left: i64, right: i64) -> (r: i64)
    requires
        op == Operator::Add || op == Operator::Multiply,
    ensures
        r == arithmetic(op, left, right),
{
    proof {
        lemma_wrap_add(left, right);
        lemma_wrap_mul(left, right);
    }
    match op {
        Operator::Add => left.wrapping_add(right),
        _ => left.wrapping_mul(right),
    }
}

fn invalid_operands(op: Operator, left: &Value, right: &Value) -> (r: Result<Value, EvalError>)
    ensures
        value_view(r) == Err::<SpecValue, SpecEvalError>(
            SpecEvalError::InvalidOperands(op, left.deep_view(), right.deep_view()),
        ),
{
    Err(EvalError::InvalidOperands(op, left.clone(), right.clone()))
}

fn number_of(text: &String) -> (r: Result<i64, EvalError>)
    ensures
        match integer_of_text(text@) {
            Some(n) => r == Ok::<i64, EvalError>(n),
            None => r matches Err(e) && e.deep_view() == SpecEvalError::NotANumber(text@),
        },
{
    match parse_integer(text.as_str()) {
        Some(n) => Ok(n),
        None => Err(EvalError::NotANumber(text.clone())),
    }
}

fn apply_arithmetic(op: Operator, left: &Value, right: &Value) -> (r: Result<Value, EvalError>)
    requires
        op == Operator::Add || op == Operator::Multiply,
    ensures
        value_view(r) == operate(op, left.deep_view(), right.deep_view()),
{
    match left {
        Value::Number(l) => match right {
            Value::Number(r) => Ok(Value::Number(calculate(op, *l, *r))),
            Value::String(s) => match number_of(s) {
                Ok(r) => Ok(Value::Number(calculate(op, *l, r))),
                Err(e) => Err(e),
            },
            _ => invalid_operands(op, left, right),
        },
        Value::String(s) => match right {
            Value::Number(r) => match number_of(s) {
                Ok(l) => Ok(Value::Number(calculate(op, l, *r))),
                Err(e) => Err(e),
            },
            _ => invalid_operands(op, left, right),
        },
        _ => invalid_operands(op, left, right),
    }
}

fn apply_relation(op: Operator, left: &Value, right: &Value) -> (r: Result<Value, EvalError>)
    requires
        op == Operator::Equality || op == Operator::DisEquality || op == Operator::LessThan || op
            == Operator::ContainedIn,
    ensures
        value_view(r) == operate(op, left.deep_view(), right.deep_view()),
{
    match left {
        Value::Number(l) => match right {
            Value::Number(r) => match op {
                Operator::Equality => Ok(Value::Boolean(*l == *r)),
                Operator::DisEquality => Ok(Value::Boolean(*l != *r)),
                Operator::LessThan => Ok(Value::Boolean(*l < *r)),
                _ => invalid_operands(op, left, right),
            },
            _ => invalid_operands(op, left, right),
        },
        Value::Boolean(l) => match right {
            Value::Boolean(r) => match op {
                Operator::Equality => Ok(Value::Boolean(*l == *r)),
                Operator::DisEquality => Ok(Value::Boolean(*l != *r)),
                _ => invalid_operands(op, left, right),
            },
            _ => invalid_operands(op, left, right),
        },
        Value::String(l) => match right {
            Value::String(r) => match op {
                Operator::DisEquality => Ok(Value::Boolean(!(*l == *r))),
                Operator::ContainedIn => Ok(Value::Boolean(contains(r.as_str(), l.as_str()))),
                _ => invalid_operands(op, left, right),
            },
            _ => invalid_operands(op, left, right),
        },
    }
}

/// Applies a binary relation to two values.
pub fn apply(op: Operator, left: &Value, right: &Value) -> (r: Result<Value, EvalError>)
    ensures
        value_view(r) == operate(op, left.deep_view(), right.deep_view()),
{
    match op {
        Operator::Add => apply_arithmetic(op, left, right),
        Operator::Multiply => apply_arithmetic(op, left, right),
        Operator::LogicalOr => Err(EvalError::Unimplemented(op)),
        _ => apply_relation(op, left, right),
    }
}

/// The character of `base` that `index` selects, as a string of its own.
pub fn index_value(base: &Value, index: &Value) -> (r: Result<Value, EvalError>)
    ensures
        value_view(r) == char_of(base.deep_view(), index.deep_view()),
{
    match base {
        Value::String(s) => match index {
            Value::Number(n) => {
                let length = s.as_str().unicode_len();
                if *n < 0 || *n as u64 >= length as u64 {
                    Err(EvalError::IndexOutOfBounds(*n))
                } else {
                    let c = s.as_str().get_char(*n as usize);
                    let mut out = String::new();
                    out.push(c);
                    assert(out@ =~= seq![c]);
                    Ok(Value::String(out))
                }
            },
            _ => Err(EvalError::NotIndexable(base.clone(), index.clone())),
        },
        _ => Err(EvalError::NotIndexable(base.clone(), index.clone())),
    }
}

/// Evaluates a term in an environment.
pub fn eval_term(env: &Environment, term: &Term) -> (r: Result<Value, EvalError>)
    ensures
        value_view(r) == term_value(env@, term.deep_view()),
    decreases term,
{
    match term {
        Term::String(s) => Ok(Value::String(s.clone())),
        Term::Integer(n) => Ok(Value::Number(*n)),
        Term::Boolean(b) => Ok(Value::Boolean(*b)),
        Term::Variable(name) => match env.get(name.as_str()) {
            Some(value) => Ok(value.clone()),
            None => Err(EvalError::VariableNotFound(name.clone())),
        },
        Term::VariableIndexed(name, index) => match env.get(name.as_str()) {
            Some(base) => match eval_expr(env, index) {
                Ok(i) => index_value(base, &i),
                Err(e) => Err(e),
            },
            None => Err(EvalError::VariableNotFound(name.clone())),
        },
    }
}

/// What a binary relation gives on the outcomes of its two operands: the first error, if
/// there is one.
pub open spec fn operate_on(
    op: Operator,
    left: Result<SpecValue, SpecEvalError>,
    right: Result<SpecValue, SpecEvalError>,
) -> Result<SpecValue, SpecEvalError> {
    match left {
        Err(e) => Err(e),
        Ok(l) => match right {
            Err(e) => Err(e),
            Ok(r) => operate(op, l, r),
        },
    }
}

/// The operator and the two operands of an expression, or its one term.
enum Parts<'a> {
    Single(&'a Term),
    Binary(Operator, &'a Term, &'a Term),
}

fn parts_of<'a>(expr: &'a Expr) -> (parts: Parts<'a>)
    ensures
        match parts {
            Parts::Single(term) => expr.deep_view() == SpecExpr::Single(term.deep_view())
                && decreases_to!(expr => term),
            Parts::Binary(op, left, right) => expr.deep_view() == SpecExpr::Binary(
                op,
                left.deep_view(),
                right.deep_view(),
            ) && decreases_to!(expr => left) && decreases_to!(expr => right),
        },
{
    match expr {
        Expr::Add(left, right) => Parts::Binary(Operator::Add, left, right),
        Expr::Multiply(left, right) => Parts::Binary(Operator::Multiply, left, right),
        Expr::LogicalOr(left, right) => Parts::Binary(Operator::LogicalOr, left, right),
        Expr::Equality(left, right) => Parts::Binary(Operator::Equality, left, right),
        Expr::DisEquality(left, right) => Parts::Binary(Operator::DisEquality, left, right),
        Expr::LessThan(left, right) => Parts::Binary(Operator::LessThan, left, right),
        Expr::ContainedIn(left, right) => Parts::Binary(Operator::ContainedIn, left, right),
        Expr::TermWrapper(term) => Parts::Single(term),
    }
}

/// Evaluates an expression in an environment.
pub fn eval_expr(env: &Environment, expr: &Expr) -> (r: Result<Value, EvalError>)
    ensures
        value_view(r) == expr_value(env@, expr.deep_view()),
    decreases expr,
{
    match parts_of(expr) {
        Parts::Single(term) => eval_term(env, term),
        Parts::Binary(Operator::LogicalOr, _, _) => Err(
            EvalError::Unimplemented(Operator::LogicalOr),
        ),
        Parts::Binary(op, left, right) => match eval_term(env, left) {
            Err(e) => Err(e),
            Ok(l) => match eval_term(env, right) {
                Err(e) => Err(e),
                Ok(r) => apply(op, &l, &r),
            },
        },
    }
}

/// What running a statement does: the lines that it prints, in order, and the environment
/// that it leaves or the error that stopped it.
pub struct Effect {
    pub printed: Seq<Seq<char>>,
    pub result: Result<Map<Seq<char>, SpecValue>, SpecEvalError>,
}

/// Nothing printed, and the environment `env` left.
pub open spec fn finished(env: Map<Seq<char>, SpecValue>) -> Effect {
    Effect { printed: Seq::empty(), result: Ok(env) }
}

/// Nothing printed, and the run stopped by `e`.
pub open spec fn failed(e: SpecEvalError) -> Effect {
    Effect { printed: Seq::empty(), result: Err(e) }
}

/// The lines `printed`, and then `effect`.
pub open spec fn after(printed: Seq<Seq<char>>, effect: Effect) -> Effect {
    Effect { printed: printed + effect.printed, result: effect.result }
}

/// What running `statement` in `env` does.
///
/// `fuel` bounds the loops: the body of a loop runs with one unit less than the loop has,
/// and so does the rest of the loop after it. A loop that goes on with no fuel left stops the
/// run with `OutOfFuel`. A predicate that is anything but the boolean `true` skips the body.
pub open spec fn run_statement(
    statement: SpecStatement,
    env: Map<Seq<char>, SpecValue>,
    fuel: nat,
) -> Effect
    decreases fuel, statement,
{
    match statement {
        SpecStatement::Assignment(name, value, _) => match expr_value(env, value) {
            Err(e) => failed(e),
            Ok(v) => finished(env.insert(name, v)),
        },
        SpecStatement::Print(value) => match expr_value(env, value) {
            Err(e) => failed(e),
            Ok(v) => Effect { printed: seq![value_text(v)], result: Ok(env) },
        },
        SpecStatement::If(predicate, body) => match expr_value(env, predicate) {
            Err(e) => failed(e),
            Ok(v) => {
                if v == SpecValue::Boolean(true) {
                    run_statement(*body, env, fuel)
                } else {
                    finished(env)
                }
            },
        },
        SpecStatement::While(predicate, body) => match expr_value(env, predicate) {
            Err(e) => failed(e),
            Ok(v) => {
                if v != SpecValue::Boolean(true) {
                    finished(env)
                } else if fuel == 0 {
                    failed(SpecEvalError::OutOfFuel)
                } else {
                    let first = run_statement(*body, env, (fuel - 1) as nat);
                    match first.result {
                        Err(_) => first,
                        Ok(next) => after(
                            first.printed,
                            run_statement(statement, next, (fuel - 1) as nat),
                        ),
                    }
                }
            },
        },
        SpecStatement::Block(items) => run_items(items, env, fuel),
    }
}

/// What running the statements `items` in order does, each in the environment that the one
/// before it left. The first error ends the run.
pub open spec fn run_items(items: Seq<SpecStatement>, env: Map<Seq<char>, SpecValue>, fuel: nat) -> Effect
    decreases fuel, items,
{
    if items.len() == 0 {
        finished(env)
    } else {
        let first = run_statement(items[0], env, fuel);
        match first.result {
            Err(_) => first,
            Ok(next) => after(first.printed, run_items(items.drop_first(), next, fuel)),
        }
    }
}

/// What running a whole program does, from the empty environment.
pub open spec fn run_program(program: Seq<SpecStatement>, fuel: nat) -> Effect {
    run_items(program, Map::empty(), fuel)
}

/// The model of what running a statement returns.
pub open spec fn env_view(r: Result<Environment, EvalError>) -> Result<
    Map<Seq<char>, SpecValue>,
    SpecEvalError,
> {
    match r {
        Ok(env) => Ok(env@),
        Err(e) => Err(e.deep_view()),
    }
}

/// Whether a run that returned `r` and took the printed lines from `before` to `now` did what
/// `effect` says.
pub open spec fn performs(
    r: Result<Environment, EvalError>,
    before: Seq<Seq<char>>,
    now: Seq<Seq<char>>,
    effect: Effect,
) -> bool {
    &&& now == before + effect.printed
    &&& env_view(r) == effect.result
}

/// Printing `first` and then `second` and then an effect is printing them joined and then the
/// effect.
pub proof fn lemma_after_after(first: Seq<Seq<char>>, second: Seq<Seq<char>>, effect: Effect)
    ensures
        after(first, after(second, effect)) == after(first + second, effect),
{
    assert(first + (second + effect.printed) =~= (first + second) + effect.printed);
}

/// Printing nothing and then an effect is the effect.
pub proof fn lemma_after_nothing(effect: Effect)
    ensures
        after(Seq::empty(), effect) == effect,
{
    assert(Seq::<Seq<char>>::empty() + effect.printed =~= effect.printed);
}

/// Writes the text of a value as `print` shows it.
pub fn text_of(value: &Value) -> (out: String)
    ensures
        out@ == value_text(value.deep_view()),
{
    match value {
        Value::String(s) => s.clone(),
        Value::Number(n) => number_text(*n),
        Value::Boolean(b) => {
            if *b {
                String::from_str("true")
            } else {
                String::from_str("false")
            }
        },
    }
}

/// Whether `value` is the boolean `true`.
pub fn is_true(value: &Value) -> (r: bool)
    ensures
        r == (value.deep_view() == SpecValue::Boolean(true)),
{
    match value {
        Value::Boolean(b) => *b,
        _ => false,
    }
}

/// Runs an assignment: evaluates `expr` and binds its value to `variable_name`. Whether the
/// statement began with `let` makes no difference.
pub fn evaluate_assignment(
    env: Environment,
    variable_name: String,
    expr: &Expr,
    is_let: bool,
) -> (r: Result<Environment, EvalError>)
    ensures
        env_view(r) == run_statement(
            SpecStatement::Assignment(variable_name@, expr.deep_view(), is_let),
            env@,
            0,
        ).result,
{
    let mut env = env;
    match eval_expr(&env, expr) {
        Err(e) => Err(e),
        Ok(value) => {
            env.insert(variable_name, value);
            Ok(env)
        },
    }
}

/// Runs a `print`: evaluates `expr` and appends the text of its value to `out` as one line.
pub fn eval_print(env: Environment, expr: &Expr, out: &mut Vec<String>) -> (r: Result<
    Environment,
    EvalError,
>)
    ensures
        performs(
            r,
            old(out).deep_view(),
            final(out).deep_view(),
            run_statement(SpecStatement::Print(expr.deep_view()), env@, 0),
        ),
{
    match eval_expr(&env, expr) {
        Err(e) => {
            assert(out.deep_view() + Seq::<Seq<char>>::empty() =~= out.deep_view());
            Err(e)
        },
        Ok(value) => {
            let line = text_of(&value);
            out.push(line);
            assert(out.deep_view() =~= old(out).deep_view() + seq![line@]);
            Ok(env)
        },
    }
}

/// Runs a conditional: the body if the predicate evaluates to `true`, nothing otherwise.
pub fn eval_if(
    env: Environment,
    expr: &Expr,
    body: &Statement,
    out: &mut Vec<String>,
    fuel: u64,
) -> (r: Result<Environment, EvalError>)
    ensures
        performs(
            r,
            old(out).deep_view(),
            final(out).deep_view(),
            run_statement(
                SpecStatement::If(expr.deep_view(), Box::new(body.deep_view())),
                env@,
                fuel as nat,
            ),
        ),
    decreases fuel, body, 1nat,
{
    match eval_expr(&env, expr) {
        Err(e) => {
            assert(out.deep_view() + Seq::<Seq<char>>::empty() =~= out.deep_view());
            Err(e)
        },
        Ok(value) => {
            if is_true(&value) {
                eval(env, body, out, fuel)
            } else {
                assert(out.deep_view() + Seq::<Seq<char>>::empty() =~= out.deep_view());
                Ok(env)
            }
        },
    }
}

/// Runs a loop: the body as long as the predicate evaluates to `true`.
#[verifier::loop_isolation(false)]
pub fn eval_while(
    env: Environment,
    expr: &Expr,
    body: &Statement,
    out: &mut Vec<String>,
    fuel: u64,
) -> (r: Result<Environment, EvalError>)
    ensures
        performs(
            r,
            old(out).deep_view(),
            final(out).deep_view(),
            run_statement(
                SpecStatement::While(expr.deep_view(), Box::new(body.deep_view())),
                env@,
                fuel as nat,
            ),
        ),
    decreases fuel, body, 1nat,
{
    let ghost whole = SpecStatement::While(expr.deep_view(), Box::new(body.deep_view()));
    let ghost goal = run_statement(whole, env@, fuel as nat);
    let ghost start = out.deep_view();
    let ghost mut printed: Seq<Seq<char>> = Seq::empty();
    let mut env = env;
    let mut left: u64 = fuel;
    proof {
        lemma_after_nothing(goal);
        assert(start + printed =~= start);
    }
    loop
        invariant
            left <= fuel,
            whole == SpecStatement::While(expr.deep_view(), Box::new(body.deep_view())),
            out.deep_view() == start + printed,
            goal == after(printed, run_statement(whole, env@, left as nat)),
        decreases left,
    {
        let ghost rest = run_statement(whole, env@, left as nat);
        match eval_expr(&env, expr) {
            Err(e) => {
                assert(printed + rest.printed =~= printed);
                return Err(e);
            },
            Ok(value) => {
                if !is_true(&value) {
                    assert(printed + rest.printed =~= printed);
                    return Ok(env);
                }
                if left == 0 {
                    assert(printed + rest.printed =~= printed);
                    return Err(EvalError::OutOfFuel);
                }
                left = left - 1;
                let ghost first = run_statement(body.deep_view(), env@, left as nat);
                match eval(env, body, out, left) {
                    Err(e) => {
                        assert(start + (printed + first.printed) =~= (start + printed)
                            + first.printed);
                        return Err(e);
                    },
                    Ok(next) => {
                        proof {
                            lemma_after_after(
                                printed,
                                first.printed,
                                run_statement(whole, next@, left as nat),
                            );
                            assert(start + (printed + first.printed) =~= (start + printed)
                                + first.printed);
                            printed = printed + first.printed;
                        }
                        env = next;
                    },
                }
            },
        }
    }
}

/// Runs statements in order, each in the environment that the one before it left.
#[verifier::loop_isolation(false)]
pub fn eval_block(env: Environment, items: &Vec<Statement>, out: &mut Vec<String>, fuel: u64) -> (r:
    Result<Environment, EvalError>)
    ensures
        performs(
            r,
            old(out).deep_view(),
            final(out).deep_view(),
            run_items(items.deep_view(), env@, fuel as nat),
        ),
    decreases fuel, items, 1nat,
{
    let ghost all = items.deep_view();
    let ghost goal = run_items(all, env@, fuel as nat);
    let ghost start = out.deep_view();
    let ghost mut printed: Seq<Seq<char>> = Seq::empty();
    let mut env = env;
    let mut i: usize = 0;
    proof {
        lemma_after_nothing(goal);
        assert(start + printed =~= start);
        assert(all.skip(0) =~= all);
    }
    while i < items.len()
        invariant
            i <= items.len(),
            all == items.deep_view(),
            out.deep_view() == start + printed,
            goal == after(printed, run_items(all.skip(i as int), env@, fuel as nat)),
        decreases items.len() - i,
    {
        let ghost first = run_statement(all[i as int], env@, fuel as nat);
        proof {
            assert(all.skip(i as int)[0] == all[i as int]);
            assert(all.skip(i as int).drop_first() =~= all.skip(i + 1));
        }
        match eval(env, &items[i], out, fuel) {
            Err(e) => {
                assert(start + (printed + first.printed) =~= (start + printed) + first.printed);
                return Err(e);
            },
            Ok(next) => {
                proof {
                    lemma_after_after(
                        printed,
                        first.printed,
                        run_items(all.skip(i + 1), next@, fuel as nat),
                    );
                    assert(start + (printed + first.printed) =~= (start + printed)
                        + first.printed);
                    printed = printed + first.printed;
                }
                env = next;
            },
        }
        i += 1;
    }
    assert(printed + Seq::<Seq<char>>::empty() =~= printed);
    Ok(env)
}

/// Runs one statement in `env`, appends what it prints to `out`, and returns the environment
/// that it leaves.
pub fn eval(env: Environment, expr: &Statement, out: &mut Vec<String>, fuel: u64) -> (r: Result<
    Environment,
    EvalError,
>)
    ensures
        performs(
            r,
            old(out).deep_view(),
            final(out).deep_view(),
            run_statement(expr.deep_view(), env@, fuel as nat),
        ),
    decreases fuel, expr, 0nat,
{
    match expr {
        Statement::Assignment(variable_name, value, is_let) => {
            assert(out.deep_view() + Seq::<Seq<char>>::empty() =~= out.deep_view());
            evaluate_assignment(env, variable_name.clone(), value, *is_let)
        },
        Statement::Print(value) => eval_print(env, value, out),
        Statement::If(predicate, body) => eval_if(env, predicate, body, out, fuel),
        Statement::While(predicate, body) => eval_while(env, predicate, body, out, fuel),
        Statement::Block(items) => {
            proof {
                lemma_block_view(*items);
            }
            eval_block(env, items, out, fuel)
        },
    }
}

/// Runs a program from the empty environment and returns the environment that it leaves.
pub fn inner_run(program: &Vec<Statement>, out: &mut Vec<String>, fuel: u64) -> (r: Result<
    Environment,
    EvalError,
>)
    ensures
        performs(
            r,
            old(out).deep_view(),
            final(out).deep_view(),
            run_program(program.deep_view(), fuel as nat),
        ),
{
    eval_block(Environment::new(), program, out, fuel)
}

/// Runs a program: appends the lines that it prints to `out`, and tells whether it came to
/// its end or which error stopped it.
pub fn run(program: Vec<Statement>, out: &mut Vec<String>, fuel: u64) -> (r: Result<(), EvalError>)
    ensures
        final(out).deep_view() == old(out).deep_view() + run_program(
            program.deep_view(),
            fuel as nat,
        ).printed,
        match run_program(program.deep_view(), fuel as nat).result {
            Ok(_) => r is Ok,
            Err(e) => r matches Err(err) && err.deep_view() == e,
        },
{
    match inner_run(&program, out, fuel) {
        Ok(_) => Ok(()),
        Err(e) => Err(e),
    }
}

/// An index that is negative, or not less than the number of characters of the string, is
/// an error, whatever the string and the index.
pub proof fn lemma_index_out_of_range(
    env: Map<Seq<char>, SpecValue>,
    name: Seq<char>,
    index: SpecExpr,
    s: Seq<char>,
    n: i64,
)
    requires
        env.contains_key(name),
        env[name] == SpecValue::String(s),
        expr_value(env, index) == Ok::<SpecValue, SpecEvalError>(SpecValue::Number(n)),
        n < 0 || n >= s.len(),
    ensures
        term_value(env, SpecTerm::VariableIndexed(name, Box::new(index))) == Err::<
            SpecValue,
            SpecEvalError,
        >(SpecEvalError::IndexOutOfBounds(n)),
{
}

/// A conditional or a loop whose predicate evaluates to anything but the boolean `true` does
/// not run its body: it prints nothing and leaves the environment as it was, whatever the
/// fuel.
pub proof fn lemma_guard_skips(
    predicate: SpecExpr,
    body: SpecStatement,
    env: Map<Seq<char>, SpecValue>,
    fuel: nat,
    v: SpecValue,
)
    requires
        expr_value(env, predicate) == Ok::<SpecValue, SpecEvalError>(v),
        v != SpecValue::Boolean(true),
    ensures
        run_statement(SpecStatement::If(predicate, Box::new(body)), env, fuel) == finished(env),
        run_statement(SpecStatement::While(predicate, Box::new(body)), env, fuel) == finished(
            env,
        ),
{
}

/// Two runs of one program with the same fuel print the same lines and end alike: in the
/// same environment, or with the same error.
pub proof fn lemma_run_deterministic(
    first: Vec<Statement>,
    second: Vec<Statement>,
    fuel: u64,
    before: Seq<Seq<char>>,
    first_out: Seq<Seq<char>>,
    second_out: Seq<Seq<char>>,
    first_result: Result<Environment, EvalError>,
    second_result: Result<Environment, EvalError>,
)
    requires
        first.deep_view() == second.deep_view(),
        performs(first_result, before, first_out, run_program(first.deep_view(), fuel as nat)),
        performs(
            second_result,
            before,
            second_out,
            run_program(second.deep_view(), fuel as nat),
        ),
    ensures
        first_out == second_out,
        env_view(first_result) == env_view(second_result),
{
}

/// Fuel only bounds a run: a statement that does not run out of fuel does the same with any
/// larger amount of it.
pub proof fn lemma_more_fuel(
    statement: SpecStatement,
    env: Map<Seq<char>, SpecValue>,
    fuel: nat,
    more: nat,
)
    requires
        fuel <= more,
        run_statement(statement, env, fuel).result != Err::<
            Map<Seq<char>, SpecValue>,
            SpecEvalError,
        >(SpecEvalError::OutOfFuel),
    ensures
        run_statement(statement, env, more) == run_statement(statement, env, fuel),
    decreases fuel, statement,
{
    match statement {
        SpecStatement::If(predicate, body) => {
            if expr_value(env, predicate) == Ok::<SpecValue, SpecEvalError>(
                SpecValue::Boolean(true),
            ) {
                lemma_more_fuel(*body, env, fuel, more);
            }
        },
        SpecStatement::While(predicate, body) => {
            if expr_value(env, predicate) == Ok::<SpecValue, SpecEvalError>(
                SpecValue::Boolean(true),
            ) {
                let first = run_statement(*body, env, (fuel - 1) as nat);
                lemma_more_fuel(*body, env, (fuel - 1) as nat, (more - 1) as nat);
                if let Ok(next) = first.result {
                    lemma_more_fuel(statement, next, (fuel - 1) as nat, (more - 1) as nat);
                }
            }
        },
        SpecStatement::Block(items) => {
            lemma_more_fuel_items(items, env, fuel, more);
        },
        _ => {},
    }
}

/// Statements in a row that do not run out of fuel do the same with any larger amount of it.
pub proof fn lemma_more_fuel_items(
    items: Seq<SpecStatement>,
    env: Map<Seq<char>, SpecValue>,
    fuel: nat,
    more: nat,
)
    requires
        fuel <= more,
        run_items(items, env, fuel).result != Err::<Map<Seq<char>, SpecValue>, SpecEvalError>(
            SpecEvalError::OutOfFuel,
        ),
    ensures
        run_items(items, env, more) == run_items(items, env, fuel),
    decreases fuel, items,
{
    if items.len() > 0 {
        let first = run_statement(items[0], env, fuel);
        lemma_more_fuel(items[0], env, fuel, more);
        if let Ok(next) = first.result {
            lemma_more_fuel_items(items.drop_first(), next, fuel, more);
        }
    }
}

/// An assignment whose expression has the value `v` binds the name to `v`.
pub proof fn lemma_assignment(
    name: Seq<char>,
    value: SpecExpr,
    declares: bool,
    env: Map<Seq<char>, SpecValue>,
    fuel: nat,
    v: SpecValue,
)
    requires
        expr_value(env, value) == Ok::<SpecValue, SpecEvalError>(v),
    ensures
        run_statement(SpecStatement::Assignment(name, value, declares), env, fuel) == finished(
            env.insert(name, v),
        ),
{
}

/// A block does what its statements do in order.
pub proof fn lemma_block(items: Seq<SpecStatement>, env: Map<Seq<char>, SpecValue>, fuel: nat)
    ensures
        run_statement(SpecStatement::Block(items), env, fuel) == run_items(items, env, fuel),
{
}

/// A conditional whose predicate is `true` does what its body does.
pub proof fn lemma_if_true(
    predicate: SpecExpr,
    body: SpecStatement,
    env: Map<Seq<char>, SpecValue>,
    fuel: nat,
)
    requires
        expr_value(env, predicate) == Ok::<SpecValue, SpecEvalError>(SpecValue::Boolean(true)),
    ensures
        run_statement(SpecStatement::If(predicate, Box::new(body)), env, fuel) == run_statement(
            body,
            env,
            fuel,
        ),
{
}

/// A loop whose predicate is `true`, and whose body prints nothing and leaves `next`, goes on
/// from `next` with one unit of fuel less.
pub proof fn lemma_while_true(
    predicate: SpecExpr,
    body: SpecStatement,
    env: Map<Seq<char>, SpecValue>,
    fuel: nat,
    next: Map<Seq<char>, SpecValue>,
)
    requires
        expr_value(env, predicate) == Ok::<SpecValue, SpecEvalError>(SpecValue::Boolean(true)),
        fuel > 0,
        run_statement(body, env, (fuel - 1) as nat) == finished(next),
    ensures
        run_statement(SpecStatement::While(predicate, Box::new(body)), env, fuel)
            == run_statement(
            SpecStatement::While(predicate, Box::new(body)),
            next,
            (fuel - 1) as nat,
        ),
{
    lemma_after_nothing(
        run_statement(
            SpecStatement::While(predicate, Box::new(body)),
            next,
            (fuel - 1) as nat,
        ),
    );
}

/// Statements from position `k` on, the first of which prints nothing and leaves `next`, do
/// what the statements after it do from `next`.
pub proof fn lemma_items_next(
    items: Seq<SpecStatement>,
    k: int,
    env: Map<Seq<char>, SpecValue>,
    fuel: nat,
    next: Map<Seq<char>, SpecValue>,
)
    requires
        0 <= k < items.len(),
        run_statement(items[k], env, fuel) == finished(next),
    ensures
        run_items(items.skip(k), env, fuel) == run_items(items.skip(k + 1), next, fuel),
{
    assert(items.skip(k)[0] == items[k]);
    assert(items.skip(k).drop_first() =~= items.skip(k + 1));
    lemma_after_nothing(run_items(items.skip(k + 1), next, fuel));
}

/// No statements do nothing.
pub proof fn lemma_items_done(items: Seq<SpecStatement>, env: Map<Seq<char>, SpecValue>, fuel: nat)
    ensures
        run_items(items.skip(items.len() as int), env, fuel) == finished(env),
        run_items(items.skip(0), env, fuel) == run_items(items, env, fuel),
{
    assert(items.skip(0) =~= items);
}

} // verus!
