//! The parser: tokens to a library of definitions.
//!
//! A definition is a name, one token that is skipped unread, and a body that
//! runs up to its closing `}`. A body is a list of compositions separated by
//! `|`; a composition is a sequence of `+`, `-`, nested bodies in `{` and `}`,
//! and names. Nothing checks that a name is ever defined.

use crate::syntax::{lemma_group_view, Alternation, AlternationView, Composition};
use crate::syntax::{CompositionView, Library, LibraryView, Term, TermView};
use vstd::prelude::*;
use vstd::string::StrSliceExecFns;

verus! {

/// Opens a nested body.
pub const GROUP_OPEN: char = '{';

/// Closes a body.
pub const GROUP_CLOSE: char = '}';

/// Separates the compositions of a body.
pub const SEPARATOR: char = '|';

/// The increment term.
pub const INCREMENT: char = '+';

/// The decrement term.
pub const DECREMENT: char = '-';

/// Why a token sequence is not a program.
#[derive(Debug, Clone, Copy, PartialEq, Eq)]
pub enum ParseError {
    /// The tokens end with a name: nothing follows that could define it.
    MissingDefinition,
    /// The tokens end inside a body, before the `}` that closes it.
    UnmatchedGroup,
}

/// The token that consists of the one character `c`.
pub open spec fn symbol(c: char) -> Seq<char> {
    seq![c]
}

/// The term that a token stands for where it is no bracket and no separator.
pub open spec fn plain_term(token: Seq<char>) -> TermView {
    if token == symbol(INCREMENT) {
        TermView::Increment
    } else if token == symbol(DECREMENT) {
        TermView::Decrement
    } else {
        TermView::Call(token)
    }
}

/// Reads on in a body from token `pos`, where `alt` holds the compositions
/// that are complete and `comp` the terms of the one that is being read.
/// Gives the body and the position behind its closing token, or `None` where
/// the tokens end first.
pub open spec fn body_from(
    tokens: Seq<Seq<char>>,
    pos: int,
    alt: AlternationView,
    comp: CompositionView,
) -> Option<(AlternationView, int)>
    decreases tokens.len() - pos,
{
    if 0 <= pos < tokens.len() {
        let token = tokens[pos];
        if token == symbol(GROUP_CLOSE) {
            Some((alt.push(comp), pos + 1))
        } else if token == symbol(SEPARATOR) {
            body_from(tokens, pos + 1, alt.push(comp), Seq::empty())
        } else if token == symbol(GROUP_OPEN) {
            match body_from(tokens, pos + 1, Seq::empty(), Seq::empty()) {
                Some((inner, next)) => if pos < next <= tokens.len() {
                    body_from(tokens, next, alt, comp.push(TermView::Group(inner)))
                } else {
                    None
                },
                None => None,
            }
        } else {
            body_from(tokens, pos + 1, alt, comp.push(plain_term(token)))
        }
    } else {
        None
    }
}

/// The body that starts at token `pos`, and the position behind its closing
/// token.
pub open spec fn parse_group_spec(tokens: Seq<Seq<char>>, pos: int) -> Option<
    (AlternationView, int),
> {
    body_from(tokens, pos, Seq::empty(), Seq::empty())
}

/// Reads definitions from token `pos` on into `lib`; a later definition of a
/// name replaces an earlier one.
pub open spec fn definitions_from(tokens: Seq<Seq<char>>, pos: int, lib: LibraryView) -> Result<
    LibraryView,
    ParseError,
>
    decreases tokens.len() - pos,
{
    if 0 <= pos < tokens.len() {
        if pos + 1 == tokens.len() {
            Err(ParseError::MissingDefinition)
        } else {
            match parse_group_spec(tokens, pos + 2) {
                Some((body, next)) => if pos < next <= tokens.len() {
                    definitions_from(tokens, next, lib.insert(tokens[pos], body))
                } else {
                    Err(ParseError::UnmatchedGroup)
                },
                None => Err(ParseError::UnmatchedGroup),
            }
        }
    } else {
        Ok(lib)
    }
}

/// The library that a token sequence defines.
pub open spec fn parse_spec(tokens: Seq<Seq<char>>) -> Result<LibraryView, ParseError> {
    definitions_from(tokens, 0, Map::empty())
}

/// A body that is read ends behind where it starts, and within the tokens.
pub proof fn lemma_body_advances(
    tokens: Seq<Seq<char>>,
    pos: int,
    alt: AlternationView,
    comp: CompositionView,
)
    ensures
        match body_from(tokens, pos, alt, comp) {
            Some((_, next)) => pos < next <= tokens.len(),
            None => true,
        },
    decreases tokens.len() - pos,
{
    if 0 <= pos < tokens.len() {
        let token = tokens[pos];
        if token == symbol(GROUP_CLOSE) {
        } else if token == symbol(SEPARATOR) {
            lemma_body_advances(tokens, pos + 1, alt.push(comp), Seq::empty());
        } else if token == symbol(GROUP_OPEN) {
            lemma_body_advances(tokens, pos + 1, Seq::empty(), Seq::empty());
            match body_from(tokens, pos + 1, Seq::empty(), Seq::empty()) {
                Some((inner, next)) => {
                    lemma_body_advances(tokens, next, alt, comp.push(TermView::Group(inner)));
                },
                None => {},
            }
        } else {
            lemma_body_advances(tokens, pos + 1, alt, comp.push(plain_term(token)));
        }
    }
}

/// Whether `token` consists of the one character `c`.
fn is_symbol(token: &str, c: char) -> (b: bool)
    ensures
        b == (token@ == symbol(c)),
{
    if token.unicode_len() == 1 {
        let found = token.get_char(0) == c;
        proof {
            if found {
                assert(token@ =~= symbol(c));
            }
        }
        found
    } else {
        false
    }
}

/// Parses one body: the tokens from `*pos` up to the `}` that closes it.
///
/// On success the cursor stands behind that token. Where the tokens end first,
/// the cursor stands at their end.
pub fn parse_group(tokens: &Vec<String>, pos: &mut usize) -> (r: Result<Alternation, ParseError>)
    ensures
        match parse_group_spec(tokens.deep_view(), *old(pos) as int) {
            Some((body, next)) => r is Ok && r->Ok_0.deep_view() == body && *final(pos) == next,
            None => r == Err::<Alternation, ParseError>(ParseError::UnmatchedGroup) && *final(pos)
                == if *old(pos) <= tokens.len() {
                tokens.len()
            } else {
                *old(pos)
            },
        },
    decreases tokens.len() - *old(pos),
{
    let ghost model = tokens.deep_view();
    let ghost start = *pos as int;
    let mut alt: Alternation = Vec::new();
    let mut comp: Composition = Vec::new();
    proof {
        assert(alt.deep_view() =~= Seq::<CompositionView>::empty());
        assert(comp.deep_view() =~= Seq::<TermView>::empty());
    }
    while *pos < tokens.len()
        invariant
            model == tokens.deep_view(),
            start == *old(pos),
            start <= *pos,
            start > tokens.len() ==> *pos == start,
            start <= tokens.len() ==> *pos <= tokens.len(),
            parse_group_spec(model, start) == body_from(
                model,
                *pos as int,
                alt.deep_view(),
                comp.deep_view(),
            ),
        decreases tokens.len() - *pos,
    {
        let ghost at = *pos as int;
        let ghost alt_before = alt.deep_view();
        let ghost comp_before = comp.deep_view();
        let token = tokens[*pos].as_str();
        assert(token@ == model[at]);
        *pos = *pos + 1;
        if is_symbol(token, GROUP_CLOSE) {
            alt.push(comp);
            proof {
                assert(alt.deep_view() =~= alt_before.push(comp_before));
            }
            return Ok(alt);
        } else if is_symbol(token, SEPARATOR) {
            alt.push(comp);
            comp = Vec::new();
            proof {
                assert(alt.deep_view() =~= alt_before.push(comp_before));
                assert(comp.deep_view() =~= Seq::<TermView>::empty());
            }
        } else if is_symbol(token, GROUP_OPEN) {
            proof {
                lemma_body_advances(model, at + 1, Seq::empty(), Seq::empty());
            }
            match parse_group(tokens, pos) {
                Ok(inner) => {
                    let ghost inner_model = inner.deep_view();
                    proof {
                        lemma_group_view(inner);
                    }
                    comp.push(Term::Group(inner));
                    proof {
                        assert(comp.deep_view() =~= comp_before.push(
                            TermView::Group(inner_model),
                        ));
                    }
                },
                Err(e) => {
                    return Err(e);
                },
            }
        } else if is_symbol(token, INCREMENT) {
            comp.push(Term::Increment);
            proof {
                assert(comp.deep_view() =~= comp_before.push(TermView::Increment));
            }
        } else if is_symbol(token, DECREMENT) {
            comp.push(Term::Decrement);
            proof {
                assert(comp.deep_view() =~= comp_before.push(TermView::Decrement));
            }
        } else {
            let name = tokens[*pos - 1].clone();
            comp.push(Term::Call(name));
            proof {
                assert(comp.deep_view() =~= comp_before.push(TermView::Call(model[at])));
            }
        }
    }
    Err(ParseError::UnmatchedGroup)
}

/// Parses a program: definitions up to the end of the tokens.
///
/// Each definition is a name, one token that is skipped, and a body up to its
/// closing `}`. A name that is defined again is bound to its last body.
pub fn parse(tokens: &Vec<String>) -> (r: Result<Library, ParseError>)
    ensures
        match r {
            Ok(lib) => parse_spec(tokens.deep_view()) == Ok::<LibraryView, ParseError>(lib@),
            Err(e) => parse_spec(tokens.deep_view()) == Err::<LibraryView, ParseError>(e),
        },
{
    let ghost model = tokens.deep_view();
    let mut lib = Library::new();
    let mut pos: usize = 0;
    while pos < tokens.len()
        invariant
            model == tokens.deep_view(),
            parse_spec(model) == definitions_from(model, pos as int, lib@),
        decreases tokens.len() - pos,
    {
        let ghost at = pos as int;
        let name = tokens[pos].clone();
        assert(name@ == model[at]);
        if pos + 1 == tokens.len() {
            return Err(ParseError::MissingDefinition);
        }
        pos = pos + 2;
        proof {
            lemma_body_advances(model, at + 2, Seq::empty(), Seq::empty());
        }
        match parse_group(tokens, &mut pos) {
            Ok(body) => {
                lib.insert(name, body);
            },
            Err(e) => {
                return Err(e);
            },
        }
    }
    Ok(lib)
}

} // verus!
