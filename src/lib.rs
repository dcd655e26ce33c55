use vstd::prelude::*;

/// Rule and indicator definitions, and the checks they must pass.
pub mod config;
/// Tokens of the formula language, with their byte spans.
pub mod lexer;
/// The expression grammar, its trees, and the precedence-climbing parser.
pub mod parser;
/// How a rule's scope folds its condition over a window, and the bar scores.
pub mod scoring;
/// Per-bar series operations that need no arithmetic on values.
pub mod series;
/// Character classes, trimming and decimal reading.
pub mod text;

verus! {

/// An evaluation failure, with a message for the user.
#[derive(Debug, Clone)]
pub struct EvalErr {
    pub msg: String,
}

} // verus!
