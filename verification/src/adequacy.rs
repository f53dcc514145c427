//! The machine and the meaning of programs agree.

use crate::machine::{lemma_outcome, lemma_run_add, lemma_stopped_stays};
use crate::machine::{halts, outcome, run, start, step, step_frame, Config, FrameView};
use crate::semantics::{alt_answer, choice_answer, comp_answer, term_answer, Answer};
use crate::syntax::{AlternationView, CompositionView, LibraryView, TermView, Value};
use vstd::prelude::*;

verus! {

/// The configuration in which the machine is once the frame on top of `rest`
/// has run to the answer `a`.
pub open spec fn reached(a: Answer, rest: Seq<FrameView>) -> Config {
    match a {
        Answer::Value(value) => Config::Running { stack: rest, value },
        Answer::Failed(name) => Config::Failed(name),
        Answer::TooDeep => arbitrary(),
    }
}

/// The configuration with `frame` on top of `rest`.
pub open spec fn on_top(rest: Seq<FrameView>, frame: FrameView, value: Value) -> Config {
    Config::Running { stack: rest.push(frame), value }
}

/// One step pops the top frame and acts on it.
proof fn lemma_step_top(lib: LibraryView, rest: Seq<FrameView>, frame: FrameView, value: Value)
    ensures
        run(lib, on_top(rest, frame, value), 1) == step_frame(lib, frame, rest, value),
{
    let stack = rest.push(frame);
    assert(stack.drop_last() =~= rest);
    assert(stack.last() == frame);
    assert(run(lib, on_top(rest, frame, value), 0) == on_top(rest, frame, value));
    assert(run(lib, on_top(rest, frame, value), 1) == step(lib, on_top(rest, frame, value)));
}

/// From `c`, one step to `c1` and then `n` steps.
proof fn lemma_step_then(lib: LibraryView, c: Config, c1: Config, n: nat)
    requires
        run(lib, c, 1) == c1,
    ensures
        run(lib, c, n + 1) == run(lib, c1, n),
{
    lemma_run_add(lib, c, 1, n);
}

/// From `c`, `m` steps to `c1` and then `n` steps to `c2`.
proof fn lemma_run_then(lib: LibraryView, c: Config, c1: Config, c2: Config, m: nat, n: nat)
    requires
        run(lib, c, m) == c1,
        run(lib, c1, n) == c2,
    ensures
        run(lib, c, m + n) == c2,
{
    lemma_run_add(lib, c, m, n);
}

/// A term frame runs to the answer of its term.
pub proof fn lemma_term_runs(
    lib: LibraryView,
    term: TermView,
    value: Value,
    depth: nat,
    rest: Seq<FrameView>,
) -> (n: nat)
    requires
        !(term_answer(lib, term, value, depth) is TooDeep),
    ensures
        n > 0,
        run(lib, on_top(rest, FrameView::Term(term), value), n) == reached(
            term_answer(lib, term, value, depth),
            rest,
        ),
    decreases depth, term, 0nat,
{
    let c = on_top(rest, FrameView::Term(term), value);
    lemma_step_top(lib, rest, FrameView::Term(term), value);
    match term {
        TermView::Increment => 1,
        TermView::Decrement => 1,
        TermView::Group(alt) => {
            let m = lemma_alt_runs(lib, alt, value, depth, rest);
            lemma_step_then(lib, c, on_top(rest, FrameView::Alternation(alt), value), m);
            m + 1
        },
        TermView::Call(name) => {
            if lib.contains_key(name) {
                let m = lemma_alt_runs(lib, lib[name], value, (depth - 1) as nat, rest);
                lemma_step_then(lib, c, on_top(rest, FrameView::Alternation(lib[name]), value), m);
                m + 1
            } else {
                1
            }
        },
    }
}

/// A composition frame runs to the answer of the terms that it holds.
pub proof fn lemma_comp_runs(
    lib: LibraryView,
    terms: CompositionView,
    value: Value,
    depth: nat,
    rest: Seq<FrameView>,
) -> (n: nat)
    requires
        !(comp_answer(lib, terms, value, depth) is TooDeep),
    ensures
        n > 0,
        run(lib, on_top(rest, FrameView::Composition(terms), value), n) == reached(
            comp_answer(lib, terms, value, depth),
            rest,
        ),
    decreases depth, terms, 0nat,
{
    let c = on_top(rest, FrameView::Composition(terms), value);
    lemma_step_top(lib, rest, FrameView::Composition(terms), value);
    if terms.len() == 0 {
        1
    } else {
        let below = rest.push(FrameView::Composition(terms.drop_first()));
        let c1 = on_top(below, FrameView::Term(terms[0]), value);
        let k = lemma_term_runs(lib, terms[0], value, depth, below);
        lemma_step_then(lib, c, c1, k);
        match term_answer(lib, terms[0], value, depth) {
            Answer::Value(next) => {
                let m = lemma_comp_runs(lib, terms.drop_first(), next, depth, rest);
                lemma_run_then(
                    lib,
                    c,
                    on_top(rest, FrameView::Composition(terms.drop_first()), next),
                    reached(comp_answer(lib, terms, value, depth), rest),
                    k + 1,
                    m,
                );
                k + 1 + m
            },
            _ => k + 1,
        }
    }
}

/// A resume frame on an undefined value runs to the answer of the first of
/// its compositions that succeeds from the restart value.
pub proof fn lemma_choice_runs(
    lib: LibraryView,
    comps: AlternationView,
    restart: Value,
    depth: nat,
    rest: Seq<FrameView>,
) -> (n: nat)
    requires
        restart is Some,
        !(choice_answer(lib, comps, restart, depth) is TooDeep),
    ensures
        n > 0,
        run(lib, on_top(rest, FrameView::Resume(comps, restart), None), n) == reached(
            choice_answer(lib, comps, restart, depth),
            rest,
        ),
    decreases depth, comps, 0nat,
{
    let c = on_top(rest, FrameView::Resume(comps, restart), None);
    lemma_step_top(lib, rest, FrameView::Resume(comps, restart), None);
    if comps.len() == 0 {
        1
    } else {
        let below = rest.push(FrameView::Resume(comps.drop_first(), restart));
        let c1 = on_top(below, FrameView::Composition(comps[0]), restart);
        let k = lemma_comp_runs(lib, comps[0], restart, depth, below);
        lemma_step_then(lib, c, c1, k);
        let end = reached(choice_answer(lib, comps, restart, depth), rest);
        match comp_answer(lib, comps[0], restart, depth) {
            Answer::Value(None) => {
                let m = lemma_choice_runs(lib, comps.drop_first(), restart, depth, rest);
                lemma_run_then(
                    lib,
                    c,
                    on_top(rest, FrameView::Resume(comps.drop_first(), restart), None),
                    end,
                    k + 1,
                    m,
                );
                k + 1 + m
            },
            Answer::Value(found) => {
                let c2 = on_top(rest, FrameView::Resume(comps.drop_first(), restart), found);
                lemma_step_top(lib, rest, FrameView::Resume(comps.drop_first(), restart), found);
                lemma_run_then(lib, c, c2, end, k + 1, 1);
                k + 2
            },
            _ => k + 1,
        }
    }
}

/// An alternation frame runs to the answer of its alternation.
pub proof fn lemma_alt_runs(
    lib: LibraryView,
    alt: AlternationView,
    value: Value,
    depth: nat,
    rest: Seq<FrameView>,
) -> (n: nat)
    requires
        !(alt_answer(lib, alt, value, depth) is TooDeep),
    ensures
        n > 0,
        run(lib, on_top(rest, FrameView::Alternation(alt), value), n) == reached(
            alt_answer(lib, alt, value, depth),
            rest,
        ),
    decreases depth, alt, 1nat,
{
    let c = on_top(rest, FrameView::Alternation(alt), value);
    let c1 = on_top(rest, FrameView::Resume(alt, value), None);
    lemma_step_top(lib, rest, FrameView::Alternation(alt), value);
    if value is None {
        lemma_step_top(lib, rest, FrameView::Resume(alt, value), None);
        lemma_step_then(lib, c, c1, 1);
        2
    } else {
        let m = lemma_choice_runs(lib, alt, value, depth, rest);
        lemma_step_then(lib, c, c1, m);
        m + 1
    }
}

/// The stopped configuration that an answer stands for.
pub open spec fn answer_config(a: Answer) -> Config {
    match a {
        Answer::Value(value) => Config::Done(value),
        Answer::Failed(name) => Config::Failed(name),
        Answer::TooDeep => arbitrary(),
    }
}

/// Where an alternation has an answer within some depth of calls, the machine
/// stops on it, and stops with that answer.
pub proof fn theorem_answer_is_outcome(
    lib: LibraryView,
    alt: AlternationView,
    value: Value,
    depth: nat,
)
    requires
        !(alt_answer(lib, alt, value, depth) is TooDeep),
    ensures
        halts(lib, start(alt, value)),
        outcome(lib, start(alt, value)) == answer_config(alt_answer(lib, alt, value, depth)),
{
    let rest = Seq::<FrameView>::empty();
    let c = start(alt, value);
    assert(rest.push(FrameView::Alternation(alt)) =~= seq![FrameView::Alternation(alt)]);
    assert(c == on_top(rest, FrameView::Alternation(alt), value));
    let n = lemma_alt_runs(lib, alt, value, depth, rest);
    match alt_answer(lib, alt, value, depth) {
        Answer::Value(left) => {
            assert(run(lib, c, n + 1) == step(lib, run(lib, c, n)));
            lemma_outcome(lib, c, n + 1);
        },
        _ => {
            lemma_outcome(lib, c, n);
        },
    }
}

/// Where a term needs calls deeper than `depth`, its frame keeps the machine
/// running for at least `depth` steps.
proof fn lemma_term_runs_on(
    lib: LibraryView,
    term: TermView,
    value: Value,
    depth: nat,
    rest: Seq<FrameView>,
) -> (n: nat)
    requires
        term_answer(lib, term, value, depth) is TooDeep,
    ensures
        n >= depth,
        run(lib, on_top(rest, FrameView::Term(term), value), n) is Running,
    decreases depth, term, 0nat,
{
    let c = on_top(rest, FrameView::Term(term), value);
    lemma_step_top(lib, rest, FrameView::Term(term), value);
    match term {
        TermView::Group(alt) => {
            let m = lemma_alt_runs_on(lib, alt, value, depth, rest);
            lemma_step_then(lib, c, on_top(rest, FrameView::Alternation(alt), value), m);
            m + 1
        },
        TermView::Call(name) => {
            if depth == 0 {
                0
            } else {
                let m = lemma_alt_runs_on(lib, lib[name], value, (depth - 1) as nat, rest);
                lemma_step_then(lib, c, on_top(rest, FrameView::Alternation(lib[name]), value), m);
                m + 1
            }
        },
        _ => 0,
    }
}

/// The same of a composition.
proof fn lemma_comp_runs_on(
    lib: LibraryView,
    terms: CompositionView,
    value: Value,
    depth: nat,
    rest: Seq<FrameView>,
) -> (n: nat)
    requires
        comp_answer(lib, terms, value, depth) is TooDeep,
    ensures
        n >= depth,
        run(lib, on_top(rest, FrameView::Composition(terms), value), n) is Running,
    decreases depth, terms, 0nat,
{
    let c = on_top(rest, FrameView::Composition(terms), value);
    lemma_step_top(lib, rest, FrameView::Composition(terms), value);
    let below = rest.push(FrameView::Composition(terms.drop_first()));
    let c1 = on_top(below, FrameView::Term(terms[0]), value);
    match term_answer(lib, terms[0], value, depth) {
        Answer::Value(next) => {
            let k = lemma_term_runs(lib, terms[0], value, depth, below);
            lemma_step_then(lib, c, c1, k);
            let m = lemma_comp_runs_on(lib, terms.drop_first(), next, depth, rest);
            lemma_run_add(lib, c, k + 1, m);
            k + 1 + m
        },
        _ => {
            let k = lemma_term_runs_on(lib, terms[0], value, depth, below);
            lemma_step_then(lib, c, c1, k);
            k + 1
        },
    }
}

/// The same of the compositions that a resume frame holds.
proof fn lemma_choice_runs_on(
    lib: LibraryView,
    comps: AlternationView,
    restart: Value,
    depth: nat,
    rest: Seq<FrameView>,
) -> (n: nat)
    requires
        restart is Some,
        choice_answer(lib, comps, restart, depth) is TooDeep,
    ensures
        n >= depth,
        run(lib, on_top(rest, FrameView::Resume(comps, restart), None), n) is Running,
    decreases depth, comps, 0nat,
{
    let c = on_top(rest, FrameView::Resume(comps, restart), None);
    lemma_step_top(lib, rest, FrameView::Resume(comps, restart), None);
    let below = rest.push(FrameView::Resume(comps.drop_first(), restart));
    let c1 = on_top(below, FrameView::Composition(comps[0]), restart);
    match comp_answer(lib, comps[0], restart, depth) {
        Answer::Value(found) => {
            let k = lemma_comp_runs(lib, comps[0], restart, depth, below);
            lemma_step_then(lib, c, c1, k);
            let m = lemma_choice_runs_on(lib, comps.drop_first(), restart, depth, rest);
            lemma_run_add(lib, c, k + 1, m);
            k + 1 + m
        },
        _ => {
            let k = lemma_comp_runs_on(lib, comps[0], restart, depth, below);
            lemma_step_then(lib, c, c1, k);
            k + 1
        },
    }
}

/// The same of an alternation.
proof fn lemma_alt_runs_on(
    lib: LibraryView,
    alt: AlternationView,
    value: Value,
    depth: nat,
    rest: Seq<FrameView>,
) -> (n: nat)
    requires
        alt_answer(lib, alt, value, depth) is TooDeep,
    ensures
        n >= depth,
        run(lib, on_top(rest, FrameView::Alternation(alt), value), n) is Running,
    decreases depth, alt, 1nat,
{
    let c = on_top(rest, FrameView::Alternation(alt), value);
    lemma_step_top(lib, rest, FrameView::Alternation(alt), value);
    let m = lemma_choice_runs_on(lib, alt, value, depth, rest);
    lemma_step_then(lib, c, on_top(rest, FrameView::Resume(alt, value), None), m);
    m + 1
}

/// Where the machine stops on an alternation, the alternation has an answer
/// within some depth of calls, and the machine stops with that answer.
pub proof fn theorem_outcome_is_answer(lib: LibraryView, alt: AlternationView, value: Value) -> (depth:
    nat)
    requires
        halts(lib, start(alt, value)),
    ensures
        !(alt_answer(lib, alt, value, depth) is TooDeep),
        outcome(lib, start(alt, value)) == answer_config(alt_answer(lib, alt, value, depth)),
{
    let c = start(alt, value);
    let stop = choose|n: nat| !(#[trigger] run(lib, c, n) is Running);
    let depth = stop + 1;
    if alt_answer(lib, alt, value, depth) is TooDeep {
        let rest = Seq::<FrameView>::empty();
        assert(rest.push(FrameView::Alternation(alt)) =~= seq![FrameView::Alternation(alt)]);
        let m = lemma_alt_runs_on(lib, alt, value, depth, rest);
        lemma_stopped_stays(lib, c, stop, m);
    }
    theorem_answer_is_outcome(lib, alt, value, depth);
    depth
}

/// An alternation has one answer: what it gives within one depth of calls, it
/// gives within every depth that suffices.
pub proof fn lemma_answer_unique(
    lib: LibraryView,
    alt: AlternationView,
    value: Value,
    depth: nat,
    other: nat,
)
    requires
        !(alt_answer(lib, alt, value, depth) is TooDeep),
        !(alt_answer(lib, alt, value, other) is TooDeep),
    ensures
        alt_answer(lib, alt, value, depth) == alt_answer(lib, alt, value, other),
{
    theorem_answer_is_outcome(lib, alt, value, depth);
    theorem_answer_is_outcome(lib, alt, value, other);
}

} // verus!
