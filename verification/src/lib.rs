//! An interpreter for a small imperative scripting language.
//!
//! A source text goes through three stages: [`lexer`] splits it into tokens, [`parser`] builds
//! the statements of a program from them, and [`runtime`] runs the program against one
//! environment of variables. [`interpreter`] chains the three. [`machine`] runs a program
//! step by step, for a caller that writes each line as it is printed. Every stage is specified
//! by a function on mathematical models, and the executable code is proved to compute it.
//! [`digits`] is a worked example: a script of two nested loops, proved to compute what it is
//! meant to for every text.
pub mod digits;
pub mod interpreter;
pub mod lexer;
pub mod machine;
pub mod parser;
pub mod runtime;
pub mod text;
