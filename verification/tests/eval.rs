use rust_min::{call, evaluate, evaluate_within, parse, tokenize, EvalError, Library, Term, Value};

fn library(source: &str) -> Library {
    parse(&tokenize(source)).unwrap()
}

fn run_main(lib: &Library, input: u64) -> Result<Value, EvalError> {
    evaluate(lib, &call("main"), Some(input))
}

fn undefined(name: &str) -> Result<Value, EvalError> {
    Err(EvalError::UndefinedFunction(name.to_string()))
}

#[test]
fn entry_is_one_call() {
    assert_eq!(call("main"), vec![vec![Term::Call("main".to_string())]]);
    assert_eq!(call(""), vec![vec![Term::Call(String::new())]]);
}

#[test]
fn increment_adds_one() {
    let lib = Library::new();
    let body = vec![vec![Term::Increment]];
    for n in [0, 1, 41, u64::MAX - 1] {
        assert_eq!(evaluate(&lib, &body, Some(n)), Ok(Some(n + 1)));
    }
}

#[test]
fn increment_overflows_to_undefined() {
    let lib = Library::new();
    assert_eq!(evaluate(&lib, &vec![vec![Term::Increment]], Some(u64::MAX)), Ok(None));
}

#[test]
fn decrement_subtracts_one() {
    let lib = Library::new();
    let body = vec![vec![Term::Decrement]];
    for n in [1, 2, 42, u64::MAX] {
        assert_eq!(evaluate(&lib, &body, Some(n)), Ok(Some(n - 1)));
    }
}

#[test]
fn decrement_underflows_to_undefined() {
    let lib = Library::new();
    assert_eq!(evaluate(&lib, &vec![vec![Term::Decrement]], Some(0)), Ok(None));
}

#[test]
fn second_branch_is_tried_when_the_first_fails() {
    let lib = library("main { { - } | { + } }");
    assert_eq!(run_main(&lib, 0), Ok(Some(1)));
}

#[test]
fn second_branch_is_skipped_when_the_first_succeeds() {
    let lib = library("main { { - } | { + } }");
    assert_eq!(run_main(&lib, 5), Ok(Some(4)));
    let guarded = library("main = { - } | { + } nowhere }");
    assert_eq!(run_main(&guarded, 5), Ok(Some(4)));
    assert_eq!(run_main(&guarded, 0), undefined("nowhere"));
}

#[test]
fn branches_restart_from_the_input() {
    let lib = library("main { + + - - - - | + + + }");
    assert_eq!(run_main(&lib, 1), Ok(Some(4)));
    assert_eq!(run_main(&lib, 2), Ok(Some(0)));
}

#[test]
fn all_branches_failing_is_undefined() {
    let lib = library("main { - | - - | { - } }");
    assert_eq!(run_main(&lib, 0), Ok(None));
}

#[test]
fn empty_composition_is_the_identity() {
    let lib = library("main { }");
    assert_eq!(run_main(&lib, 7), Ok(Some(7)));
}

#[test]
fn alternation_without_compositions_is_undefined() {
    let lib = Library::new();
    assert_eq!(evaluate(&lib, &vec![], Some(7)), Ok(None));
}

#[test]
fn undefined_input_stays_undefined() {
    let lib = library("main { + | }");
    let entry = vec![vec![Term::Call("main".to_string())]];
    assert_eq!(evaluate(&lib, &entry, None), Ok(None));
    assert_eq!(evaluate(&lib, &vec![vec![Term::Call("nowhere".to_string())]], None), Ok(None));
}

#[test]
fn recursion_counts_down_to_zero() {
    let lib = library("main { - main | }");
    for n in 0..20 {
        assert_eq!(run_main(&lib, n), Ok(Some(0)));
    }
}

#[test]
fn recursion_doubles() {
    let lib = library("double { - double + + | }\nmain { double }");
    for n in 0..20 {
        assert_eq!(run_main(&lib, n), Ok(Some(2 * n)));
    }
}

#[test]
fn deep_recursion_stays_off_the_native_stack() {
    let lib = library("double { - double + + | }\nmain { double }");
    assert_eq!(run_main(&lib, 50_000), Ok(Some(100_000)));
    assert_eq!(run_main(&lib, 300_000), Ok(Some(600_000)));
}

#[test]
fn deep_nesting_stays_off_the_native_stack() {
    let depth = 100_000;
    let mut body = vec![vec![Term::Increment]];
    for _ in 0..depth {
        body = vec![vec![Term::Group(body)]];
    }
    let lib = Library::new();
    assert_eq!(evaluate(&lib, &body, Some(1)), Ok(Some(2)));
    // Taken apart by hand: the tree is too deep to be dropped by recursion.
    let mut rest = body;
    while let Some(Term::Group(inner)) = rest.pop().and_then(|mut comp| comp.pop()) {
        rest = inner;
    }
}

#[test]
fn mutual_recursion_takes_the_remainder_by_two() {
    let lib = library("main { even }\neven { - odd | }\nodd { - even }");
    assert_eq!(run_main(&lib, 0), Ok(Some(0)));
    assert_eq!(run_main(&lib, 6), Ok(Some(0)));
    assert_eq!(run_main(&lib, 7), Ok(Some(1)));
}

#[test]
fn undefined_function_aborts() {
    let lib = Library::new();
    assert_eq!(run_main(&lib, 3), undefined("main"));
    let calls = library("main { + helper + }");
    assert_eq!(run_main(&calls, 3), undefined("helper"));
}

#[test]
fn first_unresolved_call_is_reported() {
    let lib = library("main { first second }");
    assert_eq!(run_main(&lib, 0), undefined("first"));
}

#[test]
fn call_is_resolved_even_on_an_undefined_value() {
    let lib = library("main { - nowhere | + }");
    assert_eq!(run_main(&lib, 1), undefined("nowhere"));
    assert_eq!(run_main(&lib, 0), undefined("nowhere"));
}

#[test]
fn group_is_not_entered_on_an_undefined_value() {
    let lib = library("main { - { nowhere } | + }");
    assert_eq!(run_main(&lib, 0), Ok(Some(1)));
    assert_eq!(run_main(&lib, 1), undefined("nowhere"));
}

#[test]
fn definition_is_not_entered_on_an_undefined_value() {
    let lib = library("main { - helper | + }\nhelper { nowhere }");
    assert_eq!(run_main(&lib, 0), Ok(Some(1)));
}

#[test]
fn later_definition_is_the_one_that_runs() {
    let lib = library("main { + }\nmain { + + }");
    assert_eq!(run_main(&lib, 1), Ok(Some(3)));
}

#[test]
fn evaluations_do_not_affect_each_other() {
    let lib = library("main { - - | + }");
    assert_eq!(run_main(&lib, 1), Ok(Some(2)));
    assert_eq!(run_main(&lib, 9), Ok(Some(7)));
    assert_eq!(run_main(&lib, 1), Ok(Some(2)));
}

#[test]
fn budget_counts_machine_steps() {
    let lib = Library::new();
    let body = vec![vec![Term::Increment]];
    for budget in 0..7 {
        assert_eq!(evaluate_within(&lib, &body, Some(1), budget), None);
    }
    assert_eq!(evaluate_within(&lib, &body, Some(1), 7), Some(Ok(Some(2))));
    assert_eq!(evaluate_within(&lib, &body, Some(1), u64::MAX), Some(Ok(Some(2))));
}

#[test]
fn budget_of_an_empty_alternation() {
    let lib = Library::new();
    assert_eq!(evaluate_within(&lib, &vec![], Some(1), 2), None);
    assert_eq!(evaluate_within(&lib, &vec![], Some(1), 3), Some(Ok(None)));
}

#[test]
fn budget_stops_a_program_that_runs_forever() {
    let lib = library("main { + main }");
    let entry = vec![vec![Term::Call("main".to_string())]];
    assert_eq!(evaluate_within(&lib, &entry, Some(0), 100_000), None);
}

#[test]
fn budget_reports_an_undefined_function() {
    let lib = Library::new();
    let entry = vec![vec![Term::Call("main".to_string())]];
    assert_eq!(evaluate_within(&lib, &entry, Some(0), 3), None);
    assert_eq!(evaluate_within(&lib, &entry, Some(0), 4), Some(undefined("main")));
}

#[test]
fn bounded_and_unbounded_evaluation_agree() {
    let lib = library("double { - double + + | }\nmain { double }");
    let entry = vec![vec![Term::Call("main".to_string())]];
    for n in 0..10 {
        assert_eq!(
            evaluate_within(&lib, &entry, Some(n), 1_000_000),
            Some(evaluate(&lib, &entry, Some(n)))
        );
    }
}
