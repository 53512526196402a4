use crate::lexer::{SpecToken, Token};
use vstd::prelude::*;

verus! {

/// The smallest unit that has a value: a literal, a variable, or one character of a variable
/// that holds a string.
#[derive(Debug, PartialEq)]
pub enum Term {
    Integer(i64),
    String(String),
    Boolean(bool),
    Variable(String),
    VariableIndexed(String, Box<Expr>),
}

/// A term, or one binary relation between two terms.
#[derive(Debug, PartialEq)]
pub enum Expr {
    Add(Box<Term>, Box<Term>),
    Multiply(Box<Term>, Box<Term>),
    LogicalOr(Box<Term>, Box<Term>),
    Equality(Box<Term>, Box<Term>),
    DisEquality(Box<Term>, Box<Term>),
    LessThan(Box<Term>, Box<Term>),
    ContainedIn(Box<Term>, Box<Term>),
    TermWrapper(Term),
}

/// An executable unit of a program. In `Assignment` the flag tells whether the statement began
/// with `let`.
#[derive(Debug, PartialEq)]
pub enum Statement {
    If(Box<Expr>, Box<Statement>),
    While(Box<Expr>, Box<Statement>),
    Block(Vec<Statement>),
    Assignment(String, Box<Expr>, bool),
    Print(Box<Expr>),
}

/// The binary relations of the language.
#[derive(Debug, Clone, Copy, PartialEq, Eq)]
pub enum Operator {
    Add,
    Multiply,
    LogicalOr,
    Equality,
    DisEquality,
    LessThan,
    ContainedIn,
}

/// The mathematical model of a [`Term`].
pub enum SpecTerm {
    Integer(i64),
    String(Seq<char>),
    Boolean(bool),
    Variable(Seq<char>),
    VariableIndexed(Seq<char>, Box<SpecExpr>),
}

/// The mathematical model of an [`Expr`].
pub enum SpecExpr {
    Binary(Operator, SpecTerm, SpecTerm),
    Single(SpecTerm),
}

/// The mathematical model of a [`Statement`].
pub enum SpecStatement {
    If(SpecExpr, Box<SpecStatement>),
    While(SpecExpr, Box<SpecStatement>),
    Block(Seq<SpecStatement>),
    Assignment(Seq<char>, SpecExpr, bool),
    Print(SpecExpr),
}

pub open spec fn term_view(term: Term) -> SpecTerm
    decreases term,
{
    match term {
        Term::Integer(n) => SpecTerm::Integer(n),
        Term::String(s) => SpecTerm::String(s@),
        Term::Boolean(b) => SpecTerm::Boolean(b),
        Term::Variable(name) => SpecTerm::Variable(name@),
        Term::VariableIndexed(name, index) => SpecTerm::VariableIndexed(
            name@,
            Box::new(expr_view(*index)),
        ),
    }
}

pub open spec fn expr_view(expr: Expr) -> SpecExpr
    decreases expr,
{
    match expr {
        Expr::Add(l, r) => SpecExpr::Binary(Operator::Add, term_view(*l), term_view(*r)),
        Expr::Multiply(l, r) => SpecExpr::Binary(Operator::Multiply, term_view(*l), term_view(*r)),
        Expr::LogicalOr(l, r) => SpecExpr::Binary(
            Operator::LogicalOr,
            term_view(*l),
            term_view(*r),
        ),
        Expr::Equality(l, r) => SpecExpr::Binary(Operator::Equality, term_view(*l), term_view(*r)),
        Expr::DisEquality(l, r) => SpecExpr::Binary(
            Operator::DisEquality,
            term_view(*l),
            term_view(*r),
        ),
        Expr::LessThan(l, r) => SpecExpr::Binary(Operator::LessThan, term_view(*l), term_view(*r)),
        Expr::ContainedIn(l, r) => SpecExpr::Binary(
            Operator::ContainedIn,
            term_view(*l),
            term_view(*r),
        ),
        Expr::TermWrapper(t) => SpecExpr::Single(term_view(t)),
    }
}

pub open spec fn statement_view(statement: Statement) -> SpecStatement
    decreases statement,
{
    match statement {
        Statement::If(predicate, body) => SpecStatement::If(
            expr_view(*predicate),
            Box::new(statement_view(*body)),
        ),
        Statement::While(predicate, body) => SpecStatement::While(
            expr_view(*predicate),
            Box::new(statement_view(*body)),
        ),
        Statement::Block(items) => SpecStatement::Block(
            Seq::new(
                items.len() as nat,
                |i: int|
                    if 0 <= i < items.len() {
                        statement_view(items[i])
                    } else {
                        SpecStatement::Block(Seq::empty())
                    },
            ),
        ),
        Statement::Assignment(name, value, declares) => SpecStatement::Assignment(
            name@,
            expr_view(*value),
            declares,
        ),
        Statement::Print(value) => SpecStatement::Print(expr_view(*value)),
    }
}

impl DeepView for Term {
    type V = SpecTerm;

    open spec fn deep_view(&self) -> SpecTerm {
        term_view(*self)
    }
}

impl DeepView for Expr {
    type V = SpecExpr;

    open spec fn deep_view(&self) -> SpecExpr {
        expr_view(*self)
    }
}

impl DeepView for Statement {
    type V = SpecStatement;

    open spec fn deep_view(&self) -> SpecStatement {
        statement_view(*self)
    }
}

/// A copy of `term`.
pub fn copy_term(term: &Term) -> (copy: Term)
    ensures
        copy.deep_view() == term.deep_view(),
    decreases term,
{
    match term {
        Term::Integer(n) => Term::Integer(*n),
        Term::String(s) => Term::String(s.clone()),
        Term::Boolean(b) => Term::Boolean(*b),
        Term::Variable(name) => Term::Variable(name.clone()),
        Term::VariableIndexed(name, index) => Term::VariableIndexed(
            name.clone(),
            Box::new(copy_expr(index)),
        ),
    }
}

/// A copy of `expr`.
pub fn copy_expr(expr: &Expr) -> (copy: Expr)
    ensures
        copy.deep_view() == expr.deep_view(),
    decreases expr,
{
    match expr {
        Expr::Add(l, r) => Expr::Add(Box::new(copy_term(l)), Box::new(copy_term(r))),
        Expr::Multiply(l, r) => Expr::Multiply(Box::new(copy_term(l)), Box::new(copy_term(r))),
        Expr::LogicalOr(l, r) => Expr::LogicalOr(Box::new(copy_term(l)), Box::new(copy_term(r))),
        Expr::Equality(l, r) => Expr::Equality(Box::new(copy_term(l)), Box::new(copy_term(r))),
        Expr::DisEquality(l, r) => Expr::DisEquality(
            Box::new(copy_term(l)),
            Box::new(copy_term(r)),
        ),
        Expr::LessThan(l, r) => Expr::LessThan(Box::new(copy_term(l)), Box::new(copy_term(r))),
        Expr::ContainedIn(l, r) => Expr::ContainedIn(
            Box::new(copy_term(l)),
            Box::new(copy_term(r)),
        ),
        Expr::TermWrapper(t) => Expr::TermWrapper(copy_term(t)),
    }
}

impl Clone for Term {
    fn clone(&self) -> (copy: Self)
        ensures
            copy.deep_view() == self.deep_view(),
    {
        copy_term(self)
    }
}

impl Clone for Expr {
    fn clone(&self) -> (copy: Self)
        ensures
            copy.deep_view() == self.deep_view(),
    {
        copy_expr(self)
    }
}

/// What the parser was looking for when it stopped.
#[derive(Debug, Clone, Copy, PartialEq, Eq)]
pub enum Expected {
    /// A literal or an identifier, at the start of a term.
    Term,
    /// `while`, `if`, `let`, `print` or an identifier, at the start of a statement.
    Statement,
    /// The name after `let`.
    Identifier,
    /// `:=` after the name of an assignment.
    Assignment,
    /// `;` at the end of an assignment or a `print`.
    Semicolon,
    /// `{` at the start of a block.
    OpenBrace,
    /// The token that closes an index, where the tokens ended.
    CloseBracket,
}

/// Why a token sequence is not a program: what was expected, and the token found in its place
/// (`None` at the end of the tokens).
#[derive(Debug, PartialEq)]
pub struct ParseError {
    pub expected: Expected,
    pub found: Option<Token>,
}

/// The mathematical model of a [`ParseError`].
pub struct SpecParseError {
    pub expected: Expected,
    pub found: Option<SpecToken>,
}

impl DeepView for ParseError {
    type V = SpecParseError;

    open spec fn deep_view(&self) -> SpecParseError {
        SpecParseError { expected: self.expected, found: self.found.deep_view() }
    }
}

/// The token at position `i`, if there is one.
pub open spec fn peek(ts: Seq<SpecToken>, i: int) -> Option<SpecToken> {
    if 0 <= i < ts.len() {
        Some(ts[i])
    } else {
        None
    }
}

/// How many tokens stand at position `i` and after it.
pub open spec fn tokens_left(ts: Seq<SpecToken>, i: int) -> nat {
    if i < ts.len() {
        (ts.len() - i) as nat
    } else {
        0
    }
}

pub open spec fn unexpected<T>(expected: Expected, found: Option<SpecToken>) -> Result<
    T,
    SpecParseError,
> {
    Err(SpecParseError { expected, found })
}

/// The binary relation that a token stands for, if any.
pub open spec fn operator_of(token: Option<SpecToken>) -> Option<Operator> {
    match token {
        Some(SpecToken::Multiplication) => Some(Operator::Multiply),
        Some(SpecToken::Addition) => Some(Operator::Add),
        Some(SpecToken::Disequality) => Some(Operator::DisEquality),
        Some(SpecToken::Equality) => Some(Operator::Equality),
        Some(SpecToken::LessThan) => Some(Operator::LessThan),
        Some(SpecToken::In) => Some(Operator::ContainedIn),
        _ => None,
    }
}

/// The term that starts at token `i`, with the number of tokens it spans beyond its first.
///
/// An identifier followed by `[` is an indexed variable: the index expression follows, and
/// then one more token, whatever it is, closes the index.
pub open spec fn term_at(ts: Seq<SpecToken>, i: int) -> Result<(SpecTerm, nat), SpecParseError>
    decreases tokens_left(ts, i), 0nat,
{
    match peek(ts, i) {
        None => unexpected(Expected::Term, None),
        Some(SpecToken::Integer(n)) => Ok((SpecTerm::Integer(n), 0)),
        Some(SpecToken::String(s)) => Ok((SpecTerm::String(s), 0)),
        Some(SpecToken::True) => Ok((SpecTerm::Boolean(true), 0)),
        Some(SpecToken::False) => Ok((SpecTerm::Boolean(false), 0)),
        Some(SpecToken::Identifier(name)) => {
            if peek(ts, i + 1) == Some(SpecToken::OpenSquareParenthesis) {
                match expr_at(ts, i + 2) {
                    Err(e) => Err(e),
                    Ok((index, extra)) => {
                        if peek(ts, i + 3 + extra) is Some {
                            Ok((SpecTerm::VariableIndexed(name, Box::new(index)), extra + 3))
                        } else {
                            unexpected(Expected::CloseBracket, None)
                        }
                    },
                }
            } else {
                Ok((SpecTerm::Variable(name), 0))
            }
        },
        Some(other) => unexpected(Expected::Term, Some(other)),
    }
}

/// The expression that starts at token `i`, with the number of tokens it spans beyond its
/// first: one term, and a second one if an operator follows the first. Whatever follows that
/// is left where it stands.
pub open spec fn expr_at(ts: Seq<SpecToken>, i: int) -> Result<(SpecExpr, nat), SpecParseError>
    decreases tokens_left(ts, i), 1nat,
{
    match term_at(ts, i) {
        Err(e) => Err(e),
        Ok((left, extra)) => match operator_of(peek(ts, i + 1 + extra)) {
            None => Ok((SpecExpr::Single(left), extra)),
            Some(op) => match term_at(ts, i + 2 + extra) {
                Err(e) => Err(e),
                Ok((right, more)) => Ok((SpecExpr::Binary(op, left, right), extra + 2 + more)),
            },
        },
    }
}

/// What follows the name of an assignment: `:=`, an expression and `;`, from token `i` on.
#[verifier::opaque]
pub open spec fn assignment_at(ts: Seq<SpecToken>, i: int, name: Seq<char>, declares: bool) -> Result<
    (SpecStatement, nat),
    SpecParseError,
> {
    if peek(ts, i) == Some(SpecToken::Assignment) {
        match expr_at(ts, i + 1) {
            Err(e) => Err(e),
            Ok((value, extra)) => {
                if peek(ts, i + 2 + extra) == Some(SpecToken::Semicolon) {
                    Ok((SpecStatement::Assignment(name, value, declares), extra + 2))
                } else {
                    unexpected(Expected::Semicolon, peek(ts, i + 2 + extra))
                }
            },
        }
    } else {
        unexpected(Expected::Assignment, peek(ts, i))
    }
}

/// What follows `let`: a name and the rest of an assignment, from token `i` on.
#[verifier::opaque]
pub open spec fn declaration_at(ts: Seq<SpecToken>, i: int) -> Result<
    (SpecStatement, nat),
    SpecParseError,
> {
    match peek(ts, i) {
        Some(SpecToken::Identifier(name)) => match assignment_at(ts, i + 1, name, true) {
            Err(e) => Err(e),
            Ok((statement, extra)) => Ok((statement, extra + 1)),
        },
        other => unexpected(Expected::Identifier, other),
    }
}

/// What follows `print`: an expression and `;`, from token `i` on.
#[verifier::opaque]
pub open spec fn print_at(ts: Seq<SpecToken>, i: int) -> Result<
    (SpecStatement, nat),
    SpecParseError,
> {
    match expr_at(ts, i) {
        Err(e) => Err(e),
        Ok((value, extra)) => {
            if peek(ts, i + 1 + extra) == Some(SpecToken::Semicolon) {
                Ok((SpecStatement::Print(value), extra + 1))
            } else {
                unexpected(Expected::Semicolon, peek(ts, i + 1 + extra))
            }
        },
    }
}

/// The statement that starts at token `i`, with the number of tokens it spans beyond its first.
pub open spec fn statement_at(ts: Seq<SpecToken>, i: int) -> Result<
    (SpecStatement, nat),
    SpecParseError,
>
    decreases tokens_left(ts, i), 0nat,
{
    match peek(ts, i) {
        Some(SpecToken::While) => match guarded_at(ts, i + 1, true) {
            Err(e) => Err(e),
            Ok((statement, extra)) => Ok((statement, extra + 1)),
        },
        Some(SpecToken::If) => match guarded_at(ts, i + 1, false) {
            Err(e) => Err(e),
            Ok((statement, extra)) => Ok((statement, extra + 1)),
        },
        Some(SpecToken::Identifier(name)) => match assignment_at(ts, i + 1, name, false) {
            Err(e) => Err(e),
            Ok((statement, extra)) => Ok((statement, extra + 1)),
        },
        Some(SpecToken::Let) => match declaration_at(ts, i + 1) {
            Err(e) => Err(e),
            Ok((statement, extra)) => Ok((statement, extra + 1)),
        },
        Some(SpecToken::Print) => match print_at(ts, i + 1) {
            Err(e) => Err(e),
            Ok((statement, extra)) => Ok((statement, extra + 1)),
        },
        other => unexpected(Expected::Statement, other),
    }
}

/// What follows `while` (if `repeats`) or `if`: a predicate and a block, from token `i` on.
pub open spec fn guarded_at(ts: Seq<SpecToken>, i: int, repeats: bool) -> Result<
    (SpecStatement, nat),
    SpecParseError,
>
    decreases tokens_left(ts, i), 1nat,
{
    match expr_at(ts, i) {
        Err(e) => Err(e),
        Ok((predicate, extra)) => match block_at(ts, i + 1 + extra) {
            Err(e) => Err(e),
            Ok((body, more)) => Ok(
                (
                    if repeats {
                        SpecStatement::While(predicate, Box::new(body))
                    } else {
                        SpecStatement::If(predicate, Box::new(body))
                    },
                    extra + 1 + more,
                ),
            ),
        },
    }
}

/// The block that starts at token `i`: `{`, statements, `}`.
pub open spec fn block_at(ts: Seq<SpecToken>, i: int) -> Result<
    (SpecStatement, nat),
    SpecParseError,
>
    decreases tokens_left(ts, i), 0nat,
{
    if peek(ts, i) == Some(SpecToken::OpenGraphParenthesis) {
        match items_at(ts, i + 1) {
            Err(e) => Err(e),
            Ok((items, extra)) => Ok((SpecStatement::Block(items), extra + 1)),
        }
    } else {
        unexpected(Expected::OpenBrace, peek(ts, i))
    }
}

/// The statements of a block from token `i` up to the `}` that closes it, with the distance
/// from `i` to that `}`.
pub open spec fn items_at(ts: Seq<SpecToken>, i: int) -> Result<
    (Seq<SpecStatement>, nat),
    SpecParseError,
>
    decreases tokens_left(ts, i), 2nat,
{
    match peek(ts, i) {
        None => unexpected(Expected::Statement, None),
        Some(SpecToken::CloseGraphParenthesis) => Ok((Seq::empty(), 0)),
        Some(_) => match statement_at(ts, i) {
            Err(e) => Err(e),
            Ok((first, extra)) => match items_at(ts, i + 1 + extra) {
                Err(e) => Err(e),
                Ok((rest, more)) => Ok((seq![first] + rest, extra + 1 + more)),
            },
        },
    }
}

/// The statements that the tokens from `i` on spell, up to the end of the tokens.
pub open spec fn program_from(ts: Seq<SpecToken>, i: int) -> Result<
    Seq<SpecStatement>,
    SpecParseError,
>
    decreases tokens_left(ts, i),
{
    if 0 <= i < ts.len() {
        match statement_at(ts, i) {
            Err(e) => Err(e),
            Ok((first, extra)) => match program_from(ts, i + 1 + extra) {
                Err(e) => Err(e),
                Ok(rest) => Ok(seq![first] + rest),
            },
        }
    } else {
        Ok(Seq::empty())
    }
}

/// The program that a token sequence spells.
pub open spec fn parse_program(ts: Seq<SpecToken>) -> Result<Seq<SpecStatement>, SpecParseError> {
    program_from(ts, 0)
}

/// How what an executable parser returns for position `pos` relates to the model: the same
/// node, ending where the model says, or the same error.
pub open spec fn parsed_as<T: DeepView>(
    r: Result<(T, usize), ParseError>,
    pos: usize,
    model: Result<(T::V, nat), SpecParseError>,
) -> bool {
    match model {
        Ok((node, extra)) => r matches Ok((value, next)) && value.deep_view() == node && next == pos
            + 1 + extra,
        Err(e) => r matches Err(err) && err.deep_view() == e,
    }
}

/// The model of what parsing a whole token sequence returns.
pub open spec fn program_view(r: Result<Vec<Statement>, ParseError>) -> Result<
    Seq<SpecStatement>,
    SpecParseError,
> {
    match r {
        Ok(program) => Ok(program.deep_view()),
        Err(e) => Err(e.deep_view()),
    }
}

/// The model of a block is the block of its statements' models.
pub proof fn lemma_block_view(items: Vec<Statement>)
    ensures
        Statement::Block(items).deep_view() == SpecStatement::Block(items.deep_view()),
{
    assert(statement_view(Statement::Block(items))->Block_0 =~= items.deep_view());
}

/// The token at position `pos`, if there is one.
pub fn token_at(tokens: &Vec<Token>, pos: usize) -> (r: Option<&Token>)
    ensures
        r.deep_view() == peek(tokens.deep_view(), pos as int),
        match r {
            Some(token) => pos < tokens.len() && *token == tokens[pos as int],
            None => pos >= tokens.len(),
        },
{
    if pos < tokens.len() {
        Some(&tokens[pos])
    } else {
        None
    }
}

fn unexpected_token<T>(expected: Expected, found: Option<&Token>) -> (r: Result<T, ParseError>)
    ensures
        r matches Err(e) && e.deep_view() == (SpecParseError {
            expected,
            found: found.deep_view(),
        }),
{
    let found = match found {
        Some(token) => Some(token.clone()),
        None => None,
    };
    Err(ParseError { expected, found })
}

fn operator_for(token: Option<&Token>) -> (r: Option<Operator>)
    ensures
        r == operator_of(token.deep_view()),
{
    match token {
        Some(Token::Multiplication) => Some(Operator::Multiply),
        Some(Token::Addition) => Some(Operator::Add),
        Some(Token::Disequality) => Some(Operator::DisEquality),
        Some(Token::Equality) => Some(Operator::Equality),
        Some(Token::LessThan) => Some(Operator::LessThan),
        Some(Token::In) => Some(Operator::ContainedIn),
        _ => None,
    }
}

fn binary(op: Operator, left: Term, right: Term) -> (expr: Expr)
    ensures
        expr.deep_view() == SpecExpr::Binary(op, left.deep_view(), right.deep_view()),
{
    let left = Box::new(left);
    let right = Box::new(right);
    match op {
        Operator::Add => Expr::Add(left, right),
        Operator::Multiply => Expr::Multiply(left, right),
        Operator::LogicalOr => Expr::LogicalOr(left, right),
        Operator::Equality => Expr::Equality(left, right),
        Operator::DisEquality => Expr::DisEquality(left, right),
        Operator::LessThan => Expr::LessThan(left, right),
        Operator::ContainedIn => Expr::ContainedIn(left, right),
    }
}

/// Parses the term that starts at position `pos`, and gives the position after it.
pub fn parse_term(tokens: &Vec<Token>, pos: usize) -> (r: Result<(Term, usize), ParseError>)
    ensures
        parsed_as(r, pos, term_at(tokens.deep_view(), pos as int)),
        r matches Ok((_, next)) ==> pos < next <= tokens.len(),
    decreases tokens_left(tokens.deep_view(), pos as int), 0nat,
{
    let first = token_at(tokens, pos);
    match first {
        None => unexpected_token(Expected::Term, None),
        Some(Token::Integer(n)) => Ok((Term::Integer(*n), pos + 1)),
        Some(Token::String(s)) => Ok((Term::String(s.clone()), pos + 1)),
        Some(Token::True) => Ok((Term::Boolean(true), pos + 1)),
        Some(Token::False) => Ok((Term::Boolean(false), pos + 1)),
        Some(Token::Identifier(name)) => {
            match token_at(tokens, pos + 1) {
                Some(Token::OpenSquareParenthesis) => {
                    match parse_expr(tokens, pos + 2) {
                        Err(e) => Err(e),
                        Ok((index, next)) => {
                            if next < tokens.len() {
                                Ok((Term::VariableIndexed(name.clone(), Box::new(index)), next + 1))
                            } else {
                                unexpected_token(Expected::CloseBracket, None)
                            }
                        },
                    }
                },
                _ => Ok((Term::Variable(name.clone()), pos + 1)),
            }
        },
        Some(other) => unexpected_token(Expected::Term, Some(other)),
    }
}

/// Parses the expression that starts at position `pos`, and gives the position after it.
pub fn parse_expr(tokens: &Vec<Token>, pos: usize) -> (r: Result<(Expr, usize), ParseError>)
    ensures
        parsed_as(r, pos, expr_at(tokens.deep_view(), pos as int)),
        r matches Ok((_, next)) ==> pos < next <= tokens.len(),
    decreases tokens_left(tokens.deep_view(), pos as int), 1nat,
{
    match parse_term(tokens, pos) {
        Err(e) => Err(e),
        Ok((left, next)) => {
            match operator_for(token_at(tokens, next)) {
                None => Ok((Expr::TermWrapper(left), next)),
                Some(op) => {
                    match parse_term(tokens, next + 1) {
                        Err(e) => Err(e),
                        Ok((right, end)) => Ok((binary(op, left, right), end)),
                    }
                },
            }
        },
    }
}

/// Accepts `;` and nothing else.
pub fn expect_semicolon(t: Option<&Token>) -> (r: Result<(), ParseError>)
    ensures
        t.deep_view() == Some(SpecToken::Semicolon) ==> r is Ok,
        t.deep_view() != Some(SpecToken::Semicolon) ==> (r matches Err(e) && e.deep_view() == (
        SpecParseError { expected: Expected::Semicolon, found: t.deep_view() })),
{
    match t {
        Some(Token::Semicolon) => Ok(()),
        other => unexpected_token(Expected::Semicolon, other),
    }
}

/// Parses what follows the name of an assignment, from position `pos` on.
fn parse_assignment(tokens: &Vec<Token>, pos: usize, name: &String, declares: bool) -> (r: Result<
    (Statement, usize),
    ParseError,
>)
    ensures
        parsed_as(r, pos, assignment_at(tokens.deep_view(), pos as int, name@, declares)),
        r matches Ok((_, next)) ==> pos < next <= tokens.len(),
{
    reveal(assignment_at);
    match token_at(tokens, pos) {
        Some(Token::Assignment) => {
            match parse_expr(tokens, pos + 1) {
                Err(e) => Err(e),
                Ok((value, next)) => {
                    match expect_semicolon(token_at(tokens, next)) {
                        Err(e) => Err(e),
                        Ok(()) => Ok(
                            (Statement::Assignment(name.clone(), Box::new(value), declares), next + 1),
                        ),
                    }
                },
            }
        },
        other => unexpected_token(Expected::Assignment, other),
    }
}

/// Parses what follows `print`, from position `pos` on: an expression and `;`.
fn parse_print(tokens: &Vec<Token>, pos: usize) -> (r: Result<(Statement, usize), ParseError>)
    ensures
        parsed_as(r, pos, print_at(tokens.deep_view(), pos as int)),
        r matches Ok((_, next)) ==> pos < next <= tokens.len(),
{
    reveal(print_at);
    match parse_expr(tokens, pos) {
        Err(e) => Err(e),
        Ok((value, next)) => {
            match expect_semicolon(token_at(tokens, next)) {
                Err(e) => Err(e),
                Ok(()) => Ok((Statement::Print(Box::new(value)), next + 1)),
            }
        },
    }
}

/// Parses what follows `let`, from position `pos` on: a name and the rest of an assignment.
fn parse_declaration(tokens: &Vec<Token>, pos: usize) -> (r: Result<(Statement, usize), ParseError>)
    ensures
        parsed_as(r, pos, declaration_at(tokens.deep_view(), pos as int)),
        r matches Ok((_, next)) ==> pos < next <= tokens.len(),
{
    reveal(declaration_at);
    match token_at(tokens, pos) {
        Some(Token::Identifier(name)) => parse_assignment(tokens, pos + 1, name, true),
        other => unexpected_token(Expected::Identifier, other),
    }
}

/// Parses the statement that starts at position `pos`, and gives the position after it.
pub fn parse_statement(tokens: &Vec<Token>, pos: usize) -> (r: Result<
    (Statement, usize),
    ParseError,
>)
    ensures
        parsed_as(r, pos, statement_at(tokens.deep_view(), pos as int)),
        r matches Ok((_, next)) ==> pos < next <= tokens.len(),
    decreases tokens_left(tokens.deep_view(), pos as int), 0nat,
{
    match token_at(tokens, pos) {
        Some(Token::While) => parse_while(tokens, pos + 1),
        Some(Token::If) => parse_guarded(tokens, pos + 1, false),
        Some(Token::Identifier(name)) => parse_assignment(tokens, pos + 1, name, false),
        Some(Token::Let) => parse_declaration(tokens, pos + 1),
        Some(Token::Print) => parse_print(tokens, pos + 1),
        other => unexpected_token(Expected::Statement, other),
    }
}

/// Parses what follows `while`, from position `pos` on: a predicate and a block.
pub fn parse_while(tokens: &Vec<Token>, pos: usize) -> (r: Result<(Statement, usize), ParseError>)
    ensures
        parsed_as(r, pos, guarded_at(tokens.deep_view(), pos as int, true)),
        r matches Ok((_, next)) ==> pos < next <= tokens.len(),
    decreases tokens_left(tokens.deep_view(), pos as int), 2nat,
{
    parse_guarded(tokens, pos, true)
}

/// Parses a predicate and a block from position `pos` on, into a loop if `repeats`, else into
/// a conditional.
fn parse_guarded(tokens: &Vec<Token>, pos: usize, repeats: bool) -> (r: Result<
    (Statement, usize),
    ParseError,
>)
    ensures
        parsed_as(r, pos, guarded_at(tokens.deep_view(), pos as int, repeats)),
        r matches Ok((_, next)) ==> pos < next <= tokens.len(),
    decreases tokens_left(tokens.deep_view(), pos as int), 1nat,
{
    match parse_expr(tokens, pos) {
        Err(e) => Err(e),
        Ok((condition, next)) => {
            match parse_block(tokens, next) {
                Err(e) => Err(e),
                Ok((block, end)) => {
                    let condition = Box::new(condition);
                    let block = Box::new(block);
                    if repeats {
                        Ok((Statement::While(condition, block), end))
                    } else {
                        Ok((Statement::If(condition, block), end))
                    }
                },
            }
        },
    }
}

/// What is known of a block's statements once `done` have been read, `offset` tokens in, and
/// `rest` is what the remainder gives.
pub open spec fn after_items(
    done: Seq<SpecStatement>,
    offset: nat,
    rest: Result<(Seq<SpecStatement>, nat), SpecParseError>,
) -> Result<(Seq<SpecStatement>, nat), SpecParseError> {
    match rest {
        Ok((items, extra)) => Ok((done + items, offset + extra)),
        Err(e) => Err(e),
    }
}

/// How the statements of a block from `i` on follow from the first of them and the rest.
proof fn lemma_items_at_step(ts: Seq<SpecToken>, i: int)
    requires
        peek(ts, i) is Some,
        peek(ts, i) != Some(SpecToken::CloseGraphParenthesis),
    ensures
        items_at(ts, i) == match statement_at(ts, i) {
            Err(e) => Err(e),
            Ok((first, extra)) => match items_at(ts, i + 1 + extra) {
                Err(e) => Err(e),
                Ok((rest, more)) => Ok((seq![first] + rest, extra + 1 + more)),
            },
        },
{
}

fn closes_block(token: &Token) -> (r: bool)
    ensures
        r == (token.deep_view() == SpecToken::CloseGraphParenthesis),
{
    match token {
        Token::CloseGraphParenthesis => true,
        _ => false,
    }
}

/// Parses the block that starts at position `pos`, and gives the position after it.
pub fn parse_block(tokens: &Vec<Token>, pos: usize) -> (r: Result<(Statement, usize), ParseError>)
    ensures
        parsed_as(r, pos, block_at(tokens.deep_view(), pos as int)),
        r matches Ok((_, next)) ==> pos < next <= tokens.len(),
    decreases tokens_left(tokens.deep_view(), pos as int), 0nat,
{
    let ghost ts = tokens.deep_view();
    match token_at(tokens, pos) {
        Some(Token::OpenGraphParenthesis) => {},
        other => {
            return unexpected_token(Expected::OpenBrace, other);
        },
    }
    let mut ret: Vec<Statement> = Vec::new();
    let mut at: usize = pos + 1;
    proof {
        assert(ret.deep_view() =~= Seq::<SpecStatement>::empty());
        match items_at(ts, pos + 1) {
            Ok((items, _)) => {
                assert(Seq::<SpecStatement>::empty() + items =~= items);
            },
            Err(_) => {},
        }
    }
    while at < tokens.len() && !closes_block(&tokens[at])
        invariant
            ts == tokens.deep_view(),
            pos < at <= tokens.len(),
            peek(ts, pos as int) == Some(SpecToken::OpenGraphParenthesis),
            items_at(ts, pos + 1) == after_items(
                ret.deep_view(),
                (at - pos - 1) as nat,
                items_at(ts, at as int),
            ),
        decreases tokens.len() - at,
    {
        let ghost done = ret.deep_view();
        match parse_statement(tokens, at) {
            Err(e) => {
                proof {
                    lemma_items_at_step(ts, at as int);
                }
                return Err(e);
            },
            Ok((statement, next)) => {
                ret.push(statement);
                proof {
                    lemma_items_at_step(ts, at as int);
                    assert(ret.deep_view() =~= done.push(statement.deep_view()));
                    match items_at(ts, next as int) {
                        Ok((rest, _)) => {
                            assert(done + (seq![statement.deep_view()] + rest) =~= done.push(
                                statement.deep_view(),
                            ) + rest);
                        },
                        Err(_) => {},
                    }
                }
                at = next;
            },
        }
    }
    if at >= tokens.len() {
        return unexpected_token(Expected::Statement, None);
    }
    proof {
        assert(ret.deep_view() + Seq::<SpecStatement>::empty() =~= ret.deep_view());
        lemma_block_view(ret);
    }
    Ok((Statement::Block(ret), at + 1))
}

/// What is known of a program once `done` has been read and `rest` is what the remainder gives.
pub open spec fn after_statements(
    done: Seq<SpecStatement>,
    rest: Result<Seq<SpecStatement>, SpecParseError>,
) -> Result<Seq<SpecStatement>, SpecParseError> {
    match rest {
        Ok(statements) => Ok(done + statements),
        Err(e) => Err(e),
    }
}

/// Parses a whole token sequence into the statements of a program.
///
/// The first token that cannot stand where it does ends the parse with an error, and no
/// statement is returned.
pub fn parse_input(input: Vec<Token>) -> (r: Result<Vec<Statement>, ParseError>)
    ensures
        program_view(r) == parse_program(input.deep_view()),
{
    let ghost ts = input.deep_view();
    let mut ret: Vec<Statement> = Vec::new();
    let mut at: usize = 0;
    proof {
        assert(ret.deep_view() =~= Seq::<SpecStatement>::empty());
        match program_from(ts, 0) {
            Ok(statements) => {
                assert(Seq::<SpecStatement>::empty() + statements =~= statements);
            },
            Err(_) => {},
        }
    }
    while at < input.len()
        invariant
            ts == input.deep_view(),
            at <= input.len(),
            parse_program(ts) == after_statements(ret.deep_view(), program_from(ts, at as int)),
        decreases input.len() - at,
    {
        let ghost done = ret.deep_view();
        match parse_statement(&input, at) {
            Err(e) => {
                return Err(e);
            },
            Ok((statement, next)) => {
                ret.push(statement);
                proof {
                    assert(ret.deep_view() =~= done.push(statement.deep_view()));
                    match program_from(ts, next as int) {
                        Ok(rest) => {
                            assert(done + (seq![statement.deep_view()] + rest) =~= done.push(
                                statement.deep_view(),
                            ) + rest);
                        },
                        Err(_) => {},
                    }
                }
                at = next;
            },
        }
    }
    assert(ret.deep_view() + Seq::<SpecStatement>::empty() =~= ret.deep_view());
    Ok(ret)
}

/// Parsing is a function of the tokens: two parses of token sequences with the same model
/// give the same statements, or the same error.
pub proof fn lemma_parse_deterministic(
    first: Vec<Token>,
    second: Vec<Token>,
    first_result: Result<Vec<Statement>, ParseError>,
    second_result: Result<Vec<Statement>, ParseError>,
)
    requires
        first.deep_view() == second.deep_view(),
        program_view(first_result) == parse_program(first.deep_view()),
        program_view(second_result) == parse_program(second.deep_view()),
    ensures
        program_view(first_result) == program_view(second_result),
{
}

/// A copy of `statement`.
#[verifier::loop_isolation(false)]
pub fn copy_statement(statement: &Statement) -> (copy: Statement)
    ensures
        copy.deep_view() == statement.deep_view(),
    decreases statement,
{
    match statement {
        Statement::If(predicate, body) => Statement::If(
            Box::new(copy_expr(predicate)),
            Box::new(copy_statement(body)),
        ),
        Statement::While(predicate, body) => Statement::While(
            Box::new(copy_expr(predicate)),
            Box::new(copy_statement(body)),
        ),
        Statement::Block(items) => {
            let mut copies: Vec<Statement> = Vec::new();
            let mut i: usize = 0;
            while i < items.len()
                invariant
                    i <= items.len(),
                    copies.len() == i,
                    forall|k: int|
                        0 <= k < i ==> (#[trigger] copies[k]).deep_view() == items[k].deep_view(),
                decreases items.len() - i,
            {
                copies.push(copy_statement(&items[i]));
                i += 1;
            }
            proof {
                lemma_block_view(copies);
                lemma_block_view(*items);
                assert(copies.deep_view() =~= items.deep_view());
            }
            Statement::Block(copies)
        },
        Statement::Assignment(name, value, declares) => Statement::Assignment(
            name.clone(),
            Box::new(copy_expr(value)),
            *declares,
        ),
        Statement::Print(value) => Statement::Print(Box::new(copy_expr(value))),
    }
}

impl Clone for Statement {
    fn clone(&self) -> (copy: Self)
        ensures
            copy.deep_view() == self.deep_view(),
    {
        copy_statement(self)
    }
}

} // verus!
