//! Reader for a small Lisp dialect: turns source text into expression trees.
//!
//! Every recognizer is a function from a character buffer and a position to
//! an outcome, proved equal to a grammar stated as spec functions.

pub mod decimal;
pub mod expr;
pub mod lexical;
pub mod reader;

pub use decimal::Decimal;
pub use expr::{Expr, Function, ParseError, ParseErrorKind, ParseOutcome};
pub use reader::{
    ignored_input, parse_bool, parse_expr, parse_num, parse_string, parse_symbol, read,
    ExprIterator,
};

