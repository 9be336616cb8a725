// Cost accounting and rule checking for algebraic expressions over a finite field.
//
// expr     the expression table and its canonical prefix text
// parse    reading the prefix text back into a table
// num      decimal integer literals
// text     trimming and splitting lines
// cost     operation weights and the cost configuration
// rules    rewrite rules as text, and the built-in rule set
// engine   the rewrite engine that proves two subexpressions equal
// account  charging each distinct subexpression of a scope once
// smt      rules as integer terms for a solver, and verdicts

pub mod expr;
pub mod num;
pub mod parse;
pub mod text;
pub mod cost;
pub mod rules;
pub mod engine;
pub mod account;
pub mod smt;
