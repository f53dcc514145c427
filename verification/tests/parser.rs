use rust_min::{parse, parse_group, tokenize, Library, ParseError, Term};

fn call(name: &str) -> Term {
    Term::Call(name.to_string())
}

#[test]
fn one_definition_of_one_increment() {
    let lib = parse(&tokenize("main { + }")).unwrap();
    assert_eq!(lib.len(), 1);
    assert_eq!(lib.get("main"), Some(&vec![vec![Term::Increment]]));
}

#[test]
fn token_after_the_name_is_skipped_unread() {
    for source in ["main = + }", "main { + }", "main main + }", "main } + }", "main | + }"] {
        let lib = parse(&tokenize(source)).unwrap();
        assert_eq!(lib.len(), 1);
        assert_eq!(lib.get("main"), Some(&vec![vec![Term::Increment]]));
    }
}

#[test]
fn only_one_token_is_skipped() {
    // `sep` is a call and `{ + }` a nested body; the body of `main` never closes.
    assert_eq!(parse(&tokenize("main = sep { + }")).err(), Some(ParseError::UnmatchedGroup));
    let lib = parse(&tokenize("main = sep { + } }")).unwrap();
    assert_eq!(
        lib.get("main"),
        Some(&vec![vec![call("sep"), Term::Group(vec![vec![Term::Increment]])]])
    );
}

#[test]
fn missing_closing_token_is_an_error() {
    assert_eq!(parse(&tokenize("main { +")).err(), Some(ParseError::UnmatchedGroup));
    assert_eq!(parse(&tokenize("main = +")).err(), Some(ParseError::UnmatchedGroup));
    assert_eq!(parse(&tokenize("main { { + }")).err(), Some(ParseError::UnmatchedGroup));
    assert_eq!(parse(&tokenize("f { + } g { -")).err(), Some(ParseError::UnmatchedGroup));
}

#[test]
fn name_without_a_body_is_an_error() {
    assert_eq!(parse(&tokenize("main =")).err(), Some(ParseError::UnmatchedGroup));
    assert_eq!(parse(&tokenize("main {")).err(), Some(ParseError::UnmatchedGroup));
}

#[test]
fn name_at_the_end_is_an_error() {
    assert_eq!(parse(&tokenize("main")).err(), Some(ParseError::MissingDefinition));
    assert_eq!(parse(&tokenize("f { + } g")).err(), Some(ParseError::MissingDefinition));
}

#[test]
fn no_tokens_make_an_empty_library() {
    let lib = parse(&tokenize("# nothing here\n")).unwrap();
    assert_eq!(lib.len(), 0);
    assert_eq!(lib.get("main"), None);
}

#[test]
fn empty_body_is_one_empty_composition() {
    let lib = parse(&tokenize("id { }")).unwrap();
    assert_eq!(lib.get("id"), Some(&vec![vec![]]));
}

#[test]
fn separators_split_compositions() {
    let lib = parse(&tokenize("f { + - | | g + }")).unwrap();
    assert_eq!(
        lib.get("f"),
        Some(&vec![
            vec![Term::Increment, Term::Decrement],
            vec![],
            vec![call("g"), Term::Increment],
        ])
    );
}

#[test]
fn groups_nest() {
    let lib = parse(&tokenize("f { { - { + | f } } | { } }")).unwrap();
    let inner = Term::Group(vec![vec![Term::Increment], vec![call("f")]]);
    assert_eq!(
        lib.get("f"),
        Some(&vec![
            vec![Term::Group(vec![vec![Term::Decrement, inner]])],
            vec![Term::Group(vec![vec![]])],
        ])
    );
}

#[test]
fn any_other_token_is_a_call() {
    let lib = parse(&tokenize("f { ++ -1 {} = f }")).unwrap();
    assert_eq!(
        lib.get("f"),
        Some(&vec![vec![call("++"), call("-1"), call("{}"), call("="), call("f")]])
    );
}

#[test]
fn definitions_follow_each_other() {
    let lib = parse(&tokenize("one { + }\ntwo { one one }\nmain = two }")).unwrap();
    assert_eq!(lib.len(), 3);
    assert_eq!(lib.get("one"), Some(&vec![vec![Term::Increment]]));
    assert_eq!(lib.get("two"), Some(&vec![vec![call("one"), call("one")]]));
    assert_eq!(lib.get("main"), Some(&vec![vec![call("two")]]));
}

#[test]
fn later_definition_replaces_earlier() {
    let lib = parse(&tokenize("f { + }\ng { - }\nf { + + }")).unwrap();
    assert_eq!(lib.len(), 2);
    assert_eq!(lib.get("f"), Some(&vec![vec![Term::Increment, Term::Increment]]));
    assert_eq!(lib.get("g"), Some(&vec![vec![Term::Decrement]]));
}

#[test]
fn symbols_can_be_names() {
    let lib = parse(&tokenize("+ { - }")).unwrap();
    assert_eq!(lib.get("+"), Some(&vec![vec![Term::Decrement]]));
}

#[test]
fn group_parser_stops_behind_the_closing_token() {
    let tokens = tokenize("+ { - } | f } + }");
    let mut pos = 0;
    let first = parse_group(&tokens, &mut pos).unwrap();
    assert_eq!(
        first,
        vec![
            vec![Term::Increment, Term::Group(vec![vec![Term::Decrement]])],
            vec![call("f")],
        ]
    );
    assert_eq!(pos, 7);
    let second = parse_group(&tokens, &mut pos).unwrap();
    assert_eq!(second, vec![vec![Term::Increment]]);
    assert_eq!(pos, 9);
    assert_eq!(parse_group(&tokens, &mut pos), Err(ParseError::UnmatchedGroup));
    assert_eq!(pos, 9);
}

#[test]
fn group_parser_runs_to_the_end_where_nothing_closes() {
    let tokens = tokenize("+ { - } | f");
    let mut pos = 1;
    assert_eq!(parse_group(&tokens, &mut pos), Err(ParseError::UnmatchedGroup));
    assert_eq!(pos, 6);
    let mut beyond = 10;
    assert_eq!(parse_group(&tokens, &mut beyond), Err(ParseError::UnmatchedGroup));
    assert_eq!(beyond, 10);
}

#[test]
fn library_binds_and_rebinds() {
    let mut lib = Library::new();
    assert_eq!(lib.len(), 0);
    lib.insert("f".to_string(), vec![vec![Term::Increment]]);
    lib.insert("g".to_string(), vec![]);
    assert_eq!(lib.len(), 2);
    lib.insert("f".to_string(), vec![vec![Term::Decrement]]);
    assert_eq!(lib.len(), 2);
    assert_eq!(lib.get("f"), Some(&vec![vec![Term::Decrement]]));
    assert_eq!(lib.get("g"), Some(&vec![]));
    assert_eq!(lib.get("h"), None);
}
