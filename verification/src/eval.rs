//! The evaluator: the abstract machine, run on an explicit stack on the heap.
//!
//! Nothing here recurses, so a deeply nested or recursive program is bounded
//! by memory and not by the native call stack.

use crate::machine::{halts, outcome, run, start, step, Config, FrameView};
use crate::machine::{lemma_outcome, lemma_stopped_stays};
use crate::syntax::{lemma_group_view, Alternation, Composition, Library, Term, Value};
use vstd::prelude::*;

verus! {

/// Why an evaluation was aborted.
#[derive(Debug, PartialEq, Eq)]
pub enum EvalError {
    /// A call named this definition, and the library does not hold it.
    UndefinedFunction(String),
}

/// The stopped configuration that a result stands for.
pub open spec fn result_config(r: Result<Value, EvalError>) -> Config {
    match r {
        Ok(value) => Config::Done(value),
        Err(EvalError::UndefinedFunction(name)) => Config::Failed(name@),
    }
}

/// A continuation frame over borrowed definition trees. Where the machine
/// speaks of the terms or compositions that remain, the frame holds the whole
/// sequence and the index of the first that remains.
enum Frame<'a> {
    Term(&'a Term),
    Composition(&'a Composition, usize),
    Alternation(&'a Alternation),
    Resume(&'a Alternation, usize, Value),
}

impl<'a> Frame<'a> {
    /// Indices are within their sequences.
    spec fn wf(self) -> bool {
        match self {
            Frame::Term(_) => true,
            Frame::Composition(comp, next) => next <= comp@.len(),
            Frame::Alternation(_) => true,
            Frame::Resume(alt, next, _) => next <= alt@.len(),
        }
    }

    /// The machine's frame that this one stands for.
    spec fn model(self) -> FrameView {
        match self {
            Frame::Term(term) => FrameView::Term(term.deep_view()),
            Frame::Composition(comp, next) => FrameView::Composition(
                comp.deep_view().skip(next as int),
            ),
            Frame::Alternation(alt) => FrameView::Alternation(alt.deep_view()),
            Frame::Resume(alt, next, restart) => FrameView::Resume(
                alt.deep_view().skip(next as int),
                restart,
            ),
        }
    }
}

/// Every frame of the stack is well formed.
spec fn stack_wf(stack: Seq<Frame>) -> bool {
    forall|i: int| 0 <= i < stack.len() ==> (#[trigger] stack[i]).wf()
}

/// The machine's stack that this one stands for.
spec fn stack_model(stack: Seq<Frame>) -> Seq<FrameView> {
    Seq::new(stack.len(), |i: int| stack[i].model())
}

/// The running configuration that a stack and a live value stand for.
spec fn running(stack: Seq<Frame>, value: Value) -> Config {
    Config::Running { stack: stack_model(stack), value }
}

proof fn lemma_model_push(stack: Seq<Frame>, frame: Frame)
    ensures
        stack_model(stack.push(frame)) == stack_model(stack).push(frame.model()),
{
    assert(stack_model(stack.push(frame)) =~= stack_model(stack).push(frame.model()));
}

proof fn lemma_model_pop(stack: Seq<Frame>)
    requires
        stack.len() > 0,
    ensures
        stack_model(stack).len() == stack.len(),
        stack_model(stack).last() == stack.last().model(),
        stack_model(stack).drop_last() == stack_model(stack.drop_last()),
{
    assert(stack_model(stack).drop_last() =~= stack_model(stack.drop_last()));
}

/// Performs one step of the machine on `stack` and `value`. Returns the result
/// where the step stops the machine, and `None` where it runs on.
fn step_machine<'a>(lib: &'a Library, stack: &mut Vec<Frame<'a>>, value: &mut Value) -> (stopped:
    Option<Result<Value, EvalError>>)
    requires
        stack_wf(old(stack)@),
    ensures
        stack_wf(final(stack)@),
        step(lib@, running(old(stack)@, *old(value))) == match stopped {
            Some(r) => result_config(r),
            None => running(final(stack)@, *final(value)),
        },
{
    let ghost before = stack@;
    let ghost rest = stack@.drop_last();
    match stack.pop() {
        None => Some(Ok(*value)),
        Some(frame) => {
            proof {
                lemma_model_pop(before);
                assert(stack@ == rest);
            }
            match frame {
                Frame::Term(term) => match term {
                    Term::Increment => {
                        *value =
                        match *value {
                            Some(x) => x.checked_add(1),
                            None => None,
                        };
                        None
                    },
                    Term::Decrement => {
                        *value =
                        match *value {
                            Some(x) => x.checked_sub(1),
                            None => None,
                        };
                        None
                    },
                    Term::Group(alt) => {
                        stack.push(Frame::Alternation(alt));
                        proof {
                            lemma_group_view(*alt);
                            lemma_model_push(rest, Frame::Alternation(alt));
                        }
                        None
                    },
                    Term::Call(name) => match lib.get(name.as_str()) {
                        Some(body) => {
                            stack.push(Frame::Alternation(body));
                            proof {
                                lemma_model_push(rest, Frame::Alternation(body));
                            }
                            None
                        },
                        None => Some(Err(EvalError::UndefinedFunction(name.clone()))),
                    },
                },
                Frame::Composition(comp, next) => {
                    if next < comp.len() {
                        let resumed = Frame::Composition(comp, next + 1);
                        let first = Frame::Term(&comp[next]);
                        stack.push(resumed);
                        stack.push(first);
                        proof {
                            let terms = comp.deep_view().skip(next as int);
                            assert(terms.drop_first() =~= comp.deep_view().skip(next + 1));
                            lemma_model_push(rest, resumed);
                            lemma_model_push(rest.push(resumed), first);
                        }
                    }
                    None
                },
                Frame::Alternation(alt) => {
                    let resume = Frame::Resume(alt, 0, *value);
                    stack.push(resume);
                    *value = None;
                    proof {
                        assert(alt.deep_view().skip(0) =~= alt.deep_view());
                        lemma_model_push(rest, resume);
                    }
                    None
                },
                Frame::Resume(alt, next, restart) => {
                    if restart.is_some() && value.is_none() && next < alt.len() {
                        let resume = Frame::Resume(alt, next + 1, restart);
                        let attempt = Frame::Composition(&alt[next], 0);
                        stack.push(resume);
                        stack.push(attempt);
                        *value = restart;
                        proof {
                            let remaining = alt.deep_view().skip(next as int);
                            assert(remaining.drop_first() =~= alt.deep_view().skip(next + 1));
                            assert(alt[next as int].deep_view().skip(0)
                                =~= alt[next as int].deep_view());
                            lemma_model_push(rest, resume);
                            lemma_model_push(rest.push(resume), attempt);
                        }
                    }
                    None
                },
            }
        },
    }
}

/// Evaluates `alt` on `value` against the definitions in `lib`.
///
/// The result is the configuration in which the machine stops: the value that
/// is left when the stack empties, or the name of the first call that the
/// library cannot resolve. The machine must stop on this input; a program that
/// runs on forever has no result, and [`evaluate_within`] is there for a
/// caller who cannot rule that out. By the theorems of [`crate::adequacy`] the
/// value is the one that [`crate::semantics::alt_answer`] gives.
pub fn evaluate(lib: &Library, alt: &Alternation, value: Value) -> (r: Result<Value, EvalError>)
    requires
        halts(lib@, start(alt.deep_view(), value)),
    ensures
        result_config(r) == outcome(lib@, start(alt.deep_view(), value)),
{
    let ghost init = start(alt.deep_view(), value);
    let ghost total = choose|n: nat| !(#[trigger] run(lib@, init, n) is Running);
    let ghost mut steps: nat = 0;
    let mut stack: Vec<Frame> = Vec::new();
    let mut live = value;
    stack.push(Frame::Alternation(alt));
    proof {
        assert(stack_model(stack@) =~= seq![FrameView::Alternation(alt.deep_view())]);
    }
    loop
        invariant
            stack_wf(stack@),
            running(stack@, live) == run(lib@, init, steps),
            !(run(lib@, init, total) is Running),
            init == start(alt.deep_view(), value),
        decreases total - steps,
    {
        proof {
            if total <= steps {
                lemma_stopped_stays(lib@, init, total, steps);
            }
        }
        match step_machine(lib, &mut stack, &mut live) {
            Some(r) => {
                proof {
                    lemma_outcome(lib@, init, steps + 1);
                }
                return r;
            },
            None => {},
        }
        proof {
            steps = steps + 1;
        }
    }
}

/// Evaluates `alt` on `value` against the definitions in `lib`, for at most
/// `budget` steps of the machine.
///
/// Returns what [`evaluate`] returns where the machine stops within `budget`
/// steps, and `None` where it is still running after them. The step that
/// finds the stack empty counts as one.
pub fn evaluate_within(lib: &Library, alt: &Alternation, value: Value, budget: u64) -> (r: Option<
    Result<Value, EvalError>,
>)
    ensures
        match r {
            Some(result) => result_config(result) == run(
                lib@,
                start(alt.deep_view(), value),
                budget as nat,
            ),
            None => run(lib@, start(alt.deep_view(), value), budget as nat) is Running,
        },
{
    let ghost init = start(alt.deep_view(), value);
    let mut steps: u64 = 0;
    let mut stack: Vec<Frame> = Vec::new();
    let mut live = value;
    stack.push(Frame::Alternation(alt));
    proof {
        assert(stack_model(stack@) =~= seq![FrameView::Alternation(alt.deep_view())]);
    }
    while steps < budget
        invariant
            steps <= budget,
            stack_wf(stack@),
            running(stack@, live) == run(lib@, init, steps as nat),
            init == start(alt.deep_view(), value),
        decreases budget - steps,
    {
        match step_machine(lib, &mut stack, &mut live) {
            Some(result) => {
                proof {
                    lemma_stopped_stays(lib@, init, (steps + 1) as nat, budget as nat);
                }
                return Some(result);
            },
            None => {},
        }
        steps = steps + 1;
    }
    None
}

} // verus!
