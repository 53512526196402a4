use crate::lexer::{parse, tokenize, LexError};
use crate::parser::{parse_input, parse_program, ParseError, SpecParseError};
use crate::runtime::{
    inner_run, run_program, Environment, EvalError, SpecEvalError, SpecValue,
};
use vstd::prelude::*;

verus! {

/// Why a source text did not run to its end: the stage that failed, and its error.
#[derive(Debug, PartialEq)]
pub enum Error {
    Lex(LexError),
    Parse(ParseError),
    Eval(EvalError),
}

/// The mathematical model of an [`Error`].
pub enum SpecError {
    Lex(LexError),
    Parse(SpecParseError),
    Eval(SpecEvalError),
}

impl DeepView for Error {
    type V = SpecError;

    open spec fn deep_view(&self) -> SpecError {
        match *self {
            Error::Lex(e) => SpecError::Lex(e),
            Error::Parse(e) => SpecError::Parse(e.deep_view()),
            Error::Eval(e) => SpecError::Eval(e.deep_view()),
        }
    }
}

/// What running a source text does: the lines that it prints, and the environment that it
/// leaves or the error that stopped it.
pub struct Outcome {
    pub printed: Seq<Seq<char>>,
    pub result: Result<Map<Seq<char>, SpecValue>, SpecError>,
}

/// What running the source text `text` does: it is split into tokens, the tokens are parsed,
/// and the program runs from the empty environment. A text that is no program prints nothing.
pub open spec fn run_source(text: Seq<char>, fuel: nat) -> Outcome {
    match tokenize(text) {
        Err(e) => Outcome { printed: Seq::empty(), result: Err(SpecError::Lex(e)) },
        Ok(tokens) => match parse_program(tokens) {
            Err(e) => Outcome { printed: Seq::empty(), result: Err(SpecError::Parse(e)) },
            Ok(program) => {
                let effect = run_program(program, fuel);
                Outcome {
                    printed: effect.printed,
                    result: match effect.result {
                        Ok(env) => Ok(env),
                        Err(e) => Err(SpecError::Eval(e)),
                    },
                }
            },
        },
    }
}

/// The model of what running a source text returns.
pub open spec fn outcome_view(r: Result<Environment, Error>) -> Result<
    Map<Seq<char>, SpecValue>,
    SpecError,
> {
    match r {
        Ok(env) => Ok(env@),
        Err(e) => Err(e.deep_view()),
    }
}

/// Runs a source text: appends the lines that it prints to `out`, and returns the environment
/// that it leaves.
pub fn interpret(source: &str, out: &mut Vec<String>, fuel: u64) -> (r: Result<Environment, Error>)
    ensures
        final(out).deep_view() == old(out).deep_view() + run_source(source@, fuel as nat).printed,
        outcome_view(r) == run_source(source@, fuel as nat).result,
{
    assert(out.deep_view() + Seq::<Seq<char>>::empty() =~= out.deep_view());
    let tokens = match parse(source) {
        Ok(tokens) => tokens,
        Err(e) => {
            return Err(Error::Lex(e));
        },
    };
    let program = match parse_input(tokens) {
        Ok(program) => program,
        Err(e) => {
            return Err(Error::Parse(e));
        },
    };
    match inner_run(&program, out, fuel) {
        Ok(env) => Ok(env),
        Err(e) => Err(Error::Eval(e)),
    }
}

/// Running is a function of the source text and the fuel: two runs of the same text with the
/// same fuel print the same lines and end alike, in the same environment or with the same
/// error.
pub proof fn lemma_interpret_deterministic(
    first: &str,
    second: &str,
    fuel: u64,
    before: Seq<Seq<char>>,
    first_out: Seq<Seq<char>>,
    second_out: Seq<Seq<char>>,
    first_result: Result<Environment, Error>,
    second_result: Result<Environment, Error>,
)
    requires
        first@ == second@,
        first_out == before + run_source(first@, fuel as nat).printed,
        outcome_view(first_result) == run_source(first@, fuel as nat).result,
        second_out == before + run_source(second@, fuel as nat).printed,
        outcome_view(second_result) == run_source(second@, fuel as nat).result,
    ensures
        first_out == second_out,
        outcome_view(first_result) == outcome_view(second_result),
{
}

} // verus!
