//! What a program means, apart from any machine: the value of a term, of a
//! composition and of an alternation, by recursion over the definition tree.
//!
//! A definition may call itself, so the recursion is bounded by the depth of
//! calls that it may follow.

use crate::machine::{decrement, increment};
use crate::syntax::{AlternationView, CompositionView, LibraryView, TermView, Value};
use vstd::prelude::*;

verus! {

/// What evaluating a piece of a program gives.
pub enum Answer {
    /// It completes and leaves this value, which may be undefined.
    Value(Value),
    /// It reaches a call of this name, which the library does not hold.
    Failed(Seq<char>),
    /// It follows calls deeper than the bound allows.
    TooDeep,
}

/// The answer of one term on `value`, following calls at most `depth` deep.
pub open spec fn term_answer(lib: LibraryView, term: TermView, value: Value, depth: nat) -> Answer
    decreases depth, term, 0nat,
{
    match term {
        TermView::Increment => Answer::Value(increment(value)),
        TermView::Decrement => Answer::Value(decrement(value)),
        TermView::Group(alt) => alt_answer(lib, alt, value, depth),
        TermView::Call(name) => if !lib.contains_key(name) {
            Answer::Failed(name)
        } else if depth == 0 {
            Answer::TooDeep
        } else {
            alt_answer(lib, lib[name], value, (depth - 1) as nat)
        },
    }
}

/// The answer of a composition: its terms in order, each on the value that
/// the one before it left. An undefined value does not end the composition.
pub open spec fn comp_answer(
    lib: LibraryView,
    terms: CompositionView,
    value: Value,
    depth: nat,
) -> Answer
    decreases depth, terms, 0nat,
{
    if terms.len() == 0 {
        Answer::Value(value)
    } else {
        match term_answer(lib, terms[0], value, depth) {
            Answer::Value(next) => comp_answer(lib, terms.drop_first(), next, depth),
            other => other,
        }
    }
}

/// The answer of the first of `comps` that leaves a defined value when it is
/// run on `restart`; undefined where none does.
pub open spec fn choice_answer(
    lib: LibraryView,
    comps: AlternationView,
    restart: Value,
    depth: nat,
) -> Answer
    decreases depth, comps, 0nat,
{
    if comps.len() == 0 {
        Answer::Value(None)
    } else {
        match comp_answer(lib, comps[0], restart, depth) {
            Answer::Value(None) => choice_answer(lib, comps.drop_first(), restart, depth),
            other => other,
        }
    }
}

/// The answer of an alternation. On an undefined value it is undefined, and
/// none of its compositions is tried.
pub open spec fn alt_answer(lib: LibraryView, alt: AlternationView, value: Value, depth: nat) -> Answer
    decreases depth, alt, 1nat,
{
    if value is None {
        Answer::Value(None)
    } else {
        choice_answer(lib, alt, value, depth)
    }
}

} // verus!
