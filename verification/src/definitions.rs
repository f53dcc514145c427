//! The definitions of a program as a list, and which of them the library
//! keeps.

use crate::parser::{definitions_from, parse_group_spec, parse_spec, ParseError};
use crate::syntax::{AlternationView, LibraryView};
use vstd::prelude::*;

verus! {

/// A definition as it stands in the source: its name and its body.
pub type Definition = (Seq<char>, AlternationView);

/// The definitions that the tokens from `pos` on hold, in their order.
pub open spec fn definition_list(tokens: Seq<Seq<char>>, pos: int) -> Result<
    Seq<Definition>,
    ParseError,
>
    decreases tokens.len() - pos,
{
    if 0 <= pos < tokens.len() {
        if pos + 1 == tokens.len() {
            Err(ParseError::MissingDefinition)
        } else {
            match parse_group_spec(tokens, pos + 2) {
                Some((body, next)) => if pos < next <= tokens.len() {
                    match definition_list(tokens, next) {
                        Ok(rest) => Ok(seq![(tokens[pos], body)] + rest),
                        Err(e) => Err(e),
                    }
                } else {
                    Err(ParseError::UnmatchedGroup)
                },
                None => Err(ParseError::UnmatchedGroup),
            }
        }
    } else {
        Ok(Seq::empty())
    }
}

/// The library after `defs` were bound in `lib`, one after the other.
pub open spec fn bound(lib: LibraryView, defs: Seq<Definition>) -> LibraryView
    decreases defs.len(),
{
    if defs.len() == 0 {
        lib
    } else {
        bound(lib, defs.drop_last()).insert(defs.last().0, defs.last().1)
    }
}

/// Binding a definition first and the rest after it is binding all of them.
proof fn lemma_bound_first(lib: LibraryView, first: Definition, rest: Seq<Definition>)
    ensures
        bound(lib, seq![first] + rest) == bound(lib.insert(first.0, first.1), rest),
    decreases rest.len(),
{
    let all = seq![first] + rest;
    if rest.len() == 0 {
        assert(all.drop_last() =~= Seq::<Definition>::empty());
        assert(bound(lib, all.drop_last()) == lib);
    } else {
        assert(all.drop_last() =~= seq![first] + rest.drop_last());
        assert(all.last() == rest.last());
        lemma_bound_first(lib, first, rest.drop_last());
    }
}

/// Reading definitions into a library gives the library in which the list of
/// them is bound, and fails where the list cannot be read.
proof fn lemma_definitions_are_bound(tokens: Seq<Seq<char>>, pos: int, lib: LibraryView)
    ensures
        definitions_from(tokens, pos, lib) == match definition_list(tokens, pos) {
            Ok(defs) => Ok::<LibraryView, ParseError>(bound(lib, defs)),
            Err(e) => Err(e),
        },
    decreases tokens.len() - pos,
{
    if 0 <= pos < tokens.len() && pos + 1 != tokens.len() {
        match parse_group_spec(tokens, pos + 2) {
            Some((body, next)) => {
                if pos < next <= tokens.len() {
                    let first = (tokens[pos], body);
                    lemma_definitions_are_bound(tokens, next, lib.insert(first.0, first.1));
                    match definition_list(tokens, next) {
                        Ok(rest) => {
                            lemma_bound_first(lib, first, rest);
                        },
                        Err(_) => {},
                    }
                }
            },
            None => {},
        }
    }
}

/// A name is bound after `defs` where it was bound before or one of them
/// defines it.
proof fn lemma_bound_names(lib: LibraryView, defs: Seq<Definition>, name: Seq<char>)
    ensures
        bound(lib, defs).contains_key(name) <==> lib.contains_key(name) || exists|i: int|
            0 <= i < defs.len() && (#[trigger] defs[i]).0 == name,
    decreases defs.len(),
{
    if defs.len() > 0 {
        let before = defs.drop_last();
        lemma_bound_names(lib, before, name);
        if bound(lib, defs).contains_key(name) && !lib.contains_key(name) {
            if defs.last().0 == name {
                assert(defs[defs.len() - 1].0 == name);
            } else {
                let i = choose|i: int| 0 <= i < before.len() && (#[trigger] before[i]).0 == name;
                assert(defs[i].0 == name);
            }
        }
        if exists|i: int| 0 <= i < defs.len() && (#[trigger] defs[i]).0 == name {
            let i = choose|i: int| 0 <= i < defs.len() && (#[trigger] defs[i]).0 == name;
            if i < before.len() {
                assert(before[i].0 == name);
            }
        }
    }
}

/// A definition that none after it redefines is the one that stays bound.
proof fn lemma_bound_last(lib: LibraryView, defs: Seq<Definition>, i: int)
    requires
        0 <= i < defs.len(),
        forall|j: int| i < j < defs.len() ==> (#[trigger] defs[j]).0 != defs[i].0,
    ensures
        bound(lib, defs).contains_key(defs[i].0),
        bound(lib, defs)[defs[i].0] == defs[i].1,
    decreases defs.len(),
{
    if i < defs.len() - 1 {
        let before = defs.drop_last();
        assert(defs[defs.len() - 1].0 != defs[i].0);
        assert forall|j: int| i < j < before.len() implies (#[trigger] before[j]).0
            != before[i].0 by {
            assert(defs[j].0 != defs[i].0);
        }
        lemma_bound_last(lib, before, i);
    }
}

/// Parsing succeeds exactly where the list of definitions can be read, and
/// fails with the same error where it cannot.
pub proof fn parse_reads_the_definitions(tokens: Seq<Seq<char>>)
    ensures
        match definition_list(tokens, 0) {
            Ok(defs) => parse_spec(tokens) == Ok::<LibraryView, ParseError>(
                bound(Map::empty(), defs),
            ),
            Err(e) => parse_spec(tokens) == Err::<LibraryView, ParseError>(e),
        },
{
    lemma_definitions_are_bound(tokens, 0, Map::empty());
}

/// The library of a program binds the names that the program defines, and no
/// others.
pub proof fn parsed_names_are_the_defined(tokens: Seq<Seq<char>>, name: Seq<char>)
    requires
        definition_list(tokens, 0) is Ok,
    ensures
        parse_spec(tokens) is Ok,
        parse_spec(tokens)->Ok_0.contains_key(name) <==> exists|i: int|
            0 <= i < definition_list(tokens, 0)->Ok_0.len() && (#[trigger] definition_list(
                tokens,
                0,
            )->Ok_0[i]).0 == name,
{
    let defs = definition_list(tokens, 0)->Ok_0;
    parse_reads_the_definitions(tokens);
    lemma_bound_names(Map::empty(), defs, name);
}

/// Where a name is defined more than once, the library binds it to the body
/// of its last definition: of each definition that no later one redefines,
/// the library holds the body.
pub proof fn last_definition_wins(tokens: Seq<Seq<char>>, i: int)
    requires
        definition_list(tokens, 0) is Ok,
        0 <= i < definition_list(tokens, 0)->Ok_0.len(),
        forall|j: int|
            i < j < definition_list(tokens, 0)->Ok_0.len() ==> (#[trigger] definition_list(
                tokens,
                0,
            )->Ok_0[j]).0 != definition_list(tokens, 0)->Ok_0[i].0,
    ensures
        parse_spec(tokens) is Ok,
        parse_spec(tokens)->Ok_0.contains_key(definition_list(tokens, 0)->Ok_0[i].0),
        parse_spec(tokens)->Ok_0[definition_list(tokens, 0)->Ok_0[i].0] == definition_list(
            tokens,
            0,
        )->Ok_0[i].1,
{
    let defs = definition_list(tokens, 0)->Ok_0;
    parse_reads_the_definitions(tokens);
    lemma_bound_last(Map::empty(), defs, i);
}

} // verus!
