//! An interpreter for a minimal language of natural-number functions.
//!
//! A program is a list of named definitions. The body of a definition is an
//! alternation: compositions that are tried in order, the first that yields a
//! defined value winning. A composition threads one value through its terms,
//! which add one, subtract one, enter a nested alternation or call a
//! definition by name.
//!
//! [`tokenize`] and [`parse`] turn a source text into a [`Library`];
//! [`evaluate`] runs an alternation against it on an explicit stack, and
//! [`call`] makes the alternation that enters a program by a name.

pub mod adequacy;
pub mod definitions;
pub mod eval;
pub mod grammar;
pub mod lexer;
pub mod machine;
pub mod parser;
pub mod semantics;
pub mod syntax;
pub mod theorems;

pub use crate::eval::{evaluate, evaluate_within, EvalError};
pub use crate::lexer::tokenize;
pub use crate::parser::{parse, parse_group, ParseError};
pub use crate::syntax::{call, Alternation, Composition, Library, Term, Value};
