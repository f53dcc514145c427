//! The abstract machine that gives the language its meaning.
//!
//! A configuration holds a stack of continuation frames and one live value.
//! Each step pops the top frame and acts on it; the machine is done when the
//! stack is empty. The evaluator runs exactly this machine.

use crate::syntax::{AlternationView, CompositionView, LibraryView, TermView, Value};
use vstd::prelude::*;

verus! {

/// A continuation frame.
pub enum FrameView {
    /// Run one term against the live value.
    Term(TermView),
    /// Run the terms that remain of a composition.
    Composition(CompositionView),
    /// Enter an alternation.
    Alternation(AlternationView),
    /// Decide whether to try the next of the compositions that remain, from
    /// the value with which the alternation was entered.
    Resume(AlternationView, Value),
}

/// A configuration of the machine.
pub enum Config {
    /// Frames remain to be run; the top of the stack is its last element.
    Running { stack: Seq<FrameView>, value: Value },
    /// The stack emptied and left this value.
    Done(Value),
    /// A call named a definition that the library does not hold.
    Failed(Seq<char>),
}

/// The value plus one; undefined where the value is undefined or the sum is
/// not representable.
pub open spec fn increment(value: Value) -> Value {
    match value {
        Some(x) if x < u64::MAX => Some((x + 1) as u64),
        _ => None,
    }
}

/// The value minus one; undefined where the value is undefined or zero.
pub open spec fn decrement(value: Value) -> Value {
    match value {
        Some(x) if x > 0 => Some((x - 1) as u64),
        _ => None,
    }
}

/// The configuration in which `alt` is about to be entered with `value`.
pub open spec fn start(alt: AlternationView, value: Value) -> Config {
    Config::Running { stack: seq![FrameView::Alternation(alt)], value }
}

/// What the machine does with `frame` once it is popped; `rest` is the stack
/// below it.
pub open spec fn step_frame(
    lib: LibraryView,
    frame: FrameView,
    rest: Seq<FrameView>,
    value: Value,
) -> Config {
    match frame {
        FrameView::Term(TermView::Increment) => Config::Running {
            stack: rest,
            value: increment(value),
        },
        FrameView::Term(TermView::Decrement) => Config::Running {
            stack: rest,
            value: decrement(value),
        },
        FrameView::Term(TermView::Group(alt)) => Config::Running {
            stack: rest.push(FrameView::Alternation(alt)),
            value,
        },
        FrameView::Term(TermView::Call(name)) => if lib.contains_key(name) {
            Config::Running { stack: rest.push(FrameView::Alternation(lib[name])), value }
        } else {
            Config::Failed(name)
        },
        FrameView::Composition(terms) => if terms.len() > 0 {
            Config::Running {
                stack: rest.push(FrameView::Composition(terms.drop_first())).push(
                    FrameView::Term(terms[0]),
                ),
                value,
            }
        } else {
            Config::Running { stack: rest, value }
        },
        FrameView::Alternation(alt) => Config::Running {
            stack: rest.push(FrameView::Resume(alt, value)),
            value: None,
        },
        FrameView::Resume(remaining, restart) => if restart is Some && value is None
            && remaining.len() > 0 {
            Config::Running {
                stack: rest.push(FrameView::Resume(remaining.drop_first(), restart)).push(
                    FrameView::Composition(remaining[0]),
                ),
                value: restart,
            }
        } else {
            Config::Running { stack: rest, value }
        },
    }
}

/// One step of the machine. A configuration that is done or has failed stays
/// as it is.
pub open spec fn step(lib: LibraryView, c: Config) -> Config {
    match c {
        Config::Running { stack, value } => if stack.len() == 0 {
            Config::Done(value)
        } else {
            step_frame(lib, stack.last(), stack.drop_last(), value)
        },
        _ => c,
    }
}

/// The configuration after `n` steps.
pub open spec fn run(lib: LibraryView, c: Config, n: nat) -> Config
    decreases n,
{
    if n == 0 {
        c
    } else {
        step(lib, run(lib, c, (n - 1) as nat))
    }
}

/// The machine started in `c` stops after finitely many steps.
pub open spec fn halts(lib: LibraryView, c: Config) -> bool {
    exists|n: nat| !(#[trigger] run(lib, c, n) is Running)
}

/// The configuration in which the machine started in `c` stops, where it
/// stops at all.
pub open spec fn outcome(lib: LibraryView, c: Config) -> Config {
    run(lib, c, choose|n: nat| !(#[trigger] run(lib, c, n) is Running))
}

/// Running `m` steps and then `n` more is running `m + n` steps.
pub proof fn lemma_run_add(lib: LibraryView, c: Config, m: nat, n: nat)
    ensures
        run(lib, run(lib, c, m), n) == run(lib, c, m + n),
    decreases n,
{
    if n > 0 {
        lemma_run_add(lib, c, m, (n - 1) as nat);
    }
}

/// A machine that has stopped stays where it is.
pub proof fn lemma_stopped_stays(lib: LibraryView, c: Config, m: nat, n: nat)
    requires
        !(run(lib, c, m) is Running),
        m <= n,
    ensures
        run(lib, c, n) == run(lib, c, m),
    decreases n,
{
    if m < n {
        lemma_stopped_stays(lib, c, m, (n - 1) as nat);
    }
}

/// The machine is deterministic: wherever it is seen to have stopped, that is
/// its outcome.
pub proof fn lemma_outcome(lib: LibraryView, c: Config, n: nat)
    requires
        !(run(lib, c, n) is Running),
    ensures
        halts(lib, c),
        outcome(lib, c) == run(lib, c, n),
{
    let m = choose|m: nat| !(#[trigger] run(lib, c, m) is Running);
    if m <= n {
        lemma_stopped_stays(lib, c, m, n);
    } else {
        lemma_stopped_stays(lib, c, n, m);
    }
}

} // verus!
