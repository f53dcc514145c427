//! What holds of every evaluation: theorems about the outcome of the machine
//! on particular forms of program.

use crate::adequacy::theorem_answer_is_outcome;
use crate::machine::{decrement, lemma_outcome};
use crate::machine::{halts, outcome, run, start, step, Config, FrameView};
use crate::semantics::{alt_answer, choice_answer, comp_answer, term_answer, Answer};
use crate::syntax::{single, AlternationView, LibraryView, TermView, Value};
use vstd::prelude::*;

verus! {

/// The answer of a single term is the answer of the term, on a defined value.
proof fn lemma_single_answer(lib: LibraryView, term: TermView, n: u64, depth: nat)
    ensures
        alt_answer(lib, single(term), Some(n), depth) == term_answer(lib, term, Some(n), depth),
{
    let comp = seq![term];
    let alt = single(term);
    assert(alt[0] == comp);
    assert(comp[0] == term);
    assert(comp.drop_first().len() == 0);
    assert(alt.drop_first().len() == 0);
    let first = term_answer(lib, term, Some(n), depth);
    match first {
        Answer::Value(next) => {
            assert(comp_answer(lib, comp.drop_first(), next, depth) == Answer::Value(next));
            assert(comp_answer(lib, comp, Some(n), depth) == first);
            assert(choice_answer(lib, alt.drop_first(), Some(n), depth) == Answer::Value(None));
        },
        _ => {
            assert(comp_answer(lib, comp, Some(n), depth) == first);
        },
    }
}

/// Evaluating `+` on `n` gives `n + 1`, and undefined on the greatest number
/// that can be represented.
pub proof fn increment_adds_one(lib: LibraryView, n: u64)
    ensures
        halts(lib, start(single(TermView::Increment), Some(n))),
        outcome(lib, start(single(TermView::Increment), Some(n))) == Config::Done(
            if n < u64::MAX {
                Some((n + 1) as u64)
            } else {
                None
            },
        ),
{
    lemma_single_answer(lib, TermView::Increment, n, 0);
    theorem_answer_is_outcome(lib, single(TermView::Increment), Some(n), 0);
}

/// Evaluating `-` on `n` gives `n - 1`, and undefined on zero.
pub proof fn decrement_subtracts_one(lib: LibraryView, n: u64)
    ensures
        halts(lib, start(single(TermView::Decrement), Some(n))),
        outcome(lib, start(single(TermView::Decrement), Some(n))) == Config::Done(
            if n > 0 {
                Some((n - 1) as u64)
            } else {
                None
            },
        ),
{
    lemma_single_answer(lib, TermView::Decrement, n, 0);
    theorem_answer_is_outcome(lib, single(TermView::Decrement), Some(n), 0);
}

/// Once the machine reaches a call of a name that the library does not hold,
/// the evaluation is aborted with that name, whatever remains on the stack.
pub proof fn undefined_call_aborts(
    lib: LibraryView,
    c: Config,
    n: nat,
    rest: Seq<FrameView>,
    name: Seq<char>,
    value: Value,
)
    requires
        run(lib, c, n) == (Config::Running {
            stack: rest.push(FrameView::Term(TermView::Call(name))),
            value,
        }),
        !lib.contains_key(name),
    ensures
        halts(lib, c),
        outcome(lib, c) == Config::Failed(name),
{
    let stack = rest.push(FrameView::Term(TermView::Call(name)));
    assert(stack.last() == FrameView::Term(TermView::Call(name)));
    assert(run(lib, c, n + 1) == step(lib, run(lib, c, n)));
    lemma_outcome(lib, c, n + 1);
}

/// Calling a name that the library does not hold, on a defined value, aborts
/// the evaluation with that name.
pub proof fn undefined_entry_aborts(lib: LibraryView, name: Seq<char>, n: u64)
    requires
        !lib.contains_key(name),
    ensures
        halts(lib, start(single(TermView::Call(name)), Some(n))),
        outcome(lib, start(single(TermView::Call(name)), Some(n))) == Config::Failed(name),
{
    lemma_single_answer(lib, TermView::Call(name), n, 0);
    theorem_answer_is_outcome(lib, single(TermView::Call(name)), Some(n), 0);
}

/// A composition that succeeds ends the alternation: where the first
/// composition leaves a defined value, that value is the outcome, and what
/// the later compositions hold does not matter.
pub proof fn first_success_wins(
    lib: LibraryView,
    alt: AlternationView,
    n: u64,
    depth: nat,
    found: u64,
)
    requires
        alt.len() > 0,
        comp_answer(lib, alt[0], Some(n), depth) == Answer::Value(Some(found)),
    ensures
        halts(lib, start(alt, Some(n))),
        outcome(lib, start(alt, Some(n))) == Config::Done(Some(found)),
{
    theorem_answer_is_outcome(lib, alt, Some(n), depth);
}

/// A composition that fails is undone: where the first composition leaves an
/// undefined value, the outcome is that of the remaining compositions on the
/// value with which the alternation was entered.
pub proof fn failure_tries_the_next(lib: LibraryView, alt: AlternationView, n: u64, depth: nat)
    requires
        alt.len() > 0,
        comp_answer(lib, alt[0], Some(n), depth) == Answer::Value(None),
        !(alt_answer(lib, alt.drop_first(), Some(n), depth) is TooDeep),
    ensures
        halts(lib, start(alt, Some(n))),
        halts(lib, start(alt.drop_first(), Some(n))),
        outcome(lib, start(alt, Some(n))) == outcome(lib, start(alt.drop_first(), Some(n))),
{
    theorem_answer_is_outcome(lib, alt, Some(n), depth);
    theorem_answer_is_outcome(lib, alt.drop_first(), Some(n), depth);
}

/// The body `- name | }`: count down by calling `name`, and stop where the
/// decrement fails.
pub open spec fn countdown(name: Seq<char>) -> AlternationView {
    seq![seq![TermView::Decrement, TermView::Call(name)], Seq::empty()]
}

/// The answer of a countdown is zero, within a depth of calls that grows with
/// the input.
proof fn lemma_countdown_answer(lib: LibraryView, name: Seq<char>, n: u64)
    requires
        lib.contains_key(name),
        lib[name] == countdown(name),
    ensures
        alt_answer(lib, countdown(name), Some(n), (n + 1) as nat) == Answer::Value(Some(0)),
    decreases n,
{
    let depth = (n + 1) as nat;
    let alt = countdown(name);
    let first = alt[0];
    let call = first.drop_first();
    assert(first[0] == TermView::Decrement);
    assert(call.len() == 1 && call[0] == TermView::Call(name));
    assert(call.drop_first().len() == 0);
    assert(alt.drop_first().len() == 1 && alt.drop_first()[0] == Seq::<TermView>::empty());
    assert(alt.drop_first().drop_first().len() == 0);
    let lower = decrement(Some(n));
    let inner = alt_answer(lib, alt, lower, n as nat);
    assert(term_answer(lib, TermView::Call(name), lower, depth) == inner);
    if n > 0 {
        lemma_countdown_answer(lib, name, (n - 1) as u64);
        assert(inner == Answer::Value(Some(0)));
        assert(comp_answer(lib, call.drop_first(), Some(0), depth) == Answer::Value(Some(0)));
        assert(comp_answer(lib, call, lower, depth) == Answer::Value(Some(0)));
        assert(comp_answer(lib, first, Some(n), depth) == Answer::Value(Some(0)));
    } else {
        assert(inner == Answer::Value(None));
        assert(comp_answer(lib, call.drop_first(), None, depth) == Answer::Value(None));
        assert(comp_answer(lib, call, lower, depth) == Answer::Value(None));
        assert(comp_answer(lib, first, Some(n), depth) == Answer::Value(None));
        assert(comp_answer(lib, alt.drop_first()[0], Some(n), depth) == Answer::Value(Some(n)));
        assert(choice_answer(lib, alt.drop_first(), Some(n), depth) == Answer::Value(Some(n)));
    }
}

/// A definition that decrements and calls itself until the decrement fails
/// stops on every input, however large, and leaves zero.
pub proof fn countdown_reaches_zero(lib: LibraryView, name: Seq<char>, n: u64)
    requires
        lib.contains_key(name),
        lib[name] == countdown(name),
    ensures
        halts(lib, start(single(TermView::Call(name)), Some(n))),
        outcome(lib, start(single(TermView::Call(name)), Some(n))) == Config::Done(Some(0)),
{
    let depth = (n + 2) as nat;
    lemma_countdown_answer(lib, name, n);
    lemma_single_answer(lib, TermView::Call(name), n, depth);
    theorem_answer_is_outcome(lib, single(TermView::Call(name)), Some(n), depth);
}

} // verus!
