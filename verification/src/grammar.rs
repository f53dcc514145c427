//! The grammar of bodies, as the tokens that write a definition tree down,
//! and the parser's agreement with it.

use crate::parser::{body_from, lemma_body_advances, parse_group_spec, plain_term, symbol};
use crate::parser::{DECREMENT, GROUP_CLOSE, GROUP_OPEN, INCREMENT, SEPARATOR};
use crate::syntax::{AlternationView, CompositionView, TermView};
use vstd::prelude::*;

verus! {

/// The token is one of the five that the grammar keeps for itself.
pub open spec fn reserved(token: Seq<char>) -> bool {
    ||| token == symbol(GROUP_OPEN)
    ||| token == symbol(GROUP_CLOSE)
    ||| token == symbol(SEPARATOR)
    ||| token == symbol(INCREMENT)
    ||| token == symbol(DECREMENT)
}

/// The tokens that write a term.
pub open spec fn term_tokens(term: TermView) -> Seq<Seq<char>>
    decreases term, 0nat,
{
    match term {
        TermView::Increment => seq![symbol(INCREMENT)],
        TermView::Decrement => seq![symbol(DECREMENT)],
        TermView::Group(alt) => seq![symbol(GROUP_OPEN)] + body_tokens(alt),
        TermView::Call(name) => seq![name],
    }
}

/// The tokens that write a composition: those of its terms, in order.
pub open spec fn comp_tokens(terms: CompositionView) -> Seq<Seq<char>>
    decreases terms, 0nat,
{
    if terms.len() == 0 {
        Seq::empty()
    } else {
        term_tokens(terms[0]) + comp_tokens(terms.drop_first())
    }
}

/// The tokens that write a body and close it: its compositions with a
/// separator between each two, and the closing token.
pub open spec fn body_tokens(alt: AlternationView) -> Seq<Seq<char>>
    decreases alt, 0nat,
{
    if alt.len() == 0 {
        seq![symbol(GROUP_CLOSE)]
    } else if alt.len() == 1 {
        comp_tokens(alt[0]) + seq![symbol(GROUP_CLOSE)]
    } else {
        comp_tokens(alt[0]) + seq![symbol(SEPARATOR)] + body_tokens(alt.drop_first())
    }
}

/// The term can be written: its names are not reserved, and its groups can
/// be written.
pub open spec fn term_written(term: TermView) -> bool
    decreases term, 0nat,
{
    match term {
        TermView::Group(alt) => body_written(alt),
        TermView::Call(name) => !reserved(name),
        _ => true,
    }
}

/// Each term of the composition can be written.
pub open spec fn comp_written(terms: CompositionView) -> bool
    decreases terms, 0nat,
{
    forall|j: int| 0 <= j < terms.len() ==> term_written(#[trigger] terms[j])
}

/// The body can be written: it has a composition, and each of them can be
/// written.
pub open spec fn body_written(alt: AlternationView) -> bool
    decreases alt, 0nat,
{
    &&& alt.len() > 0
    &&& forall|i: int| 0 <= i < alt.len() ==> comp_written(#[trigger] alt[i])
}

/// The tokens from `pos` on start with `part`.
pub open spec fn stands_at(tokens: Seq<Seq<char>>, pos: int, part: Seq<Seq<char>>) -> bool {
    &&& 0 <= pos
    &&& pos + part.len() <= tokens.len()
    &&& tokens.subrange(pos, pos + part.len()) == part
}

/// Symbols of different characters are different tokens.
proof fn lemma_symbols_differ(a: char, b: char)
    ensures
        symbol(a) == symbol(b) ==> a == b,
{
    assert(symbol(a)[0] == a);
    assert(symbol(b)[0] == b);
}

/// What stands at a position stands there part by part.
proof fn lemma_stands_split(
    tokens: Seq<Seq<char>>,
    pos: int,
    first: Seq<Seq<char>>,
    second: Seq<Seq<char>>,
)
    requires
        stands_at(tokens, pos, first + second),
    ensures
        stands_at(tokens, pos, first),
        stands_at(tokens, pos + first.len(), second),
{
    let whole = tokens.subrange(pos, pos + (first + second).len());
    assert(tokens.subrange(pos, pos + first.len()) =~= first) by {
        assert forall|i: int| 0 <= i < first.len() implies tokens[pos + i] == first[i] by {
            assert(whole[i] == (first + second)[i]);
        }
    }
    assert(tokens.subrange(pos + first.len(), pos + first.len() + second.len()) =~= second) by {
        assert forall|i: int| 0 <= i < second.len() implies tokens[pos + first.len() + i]
            == second[i] by {
            assert(whole[first.len() + i] == (first + second)[first.len() + i]);
        }
    }
}

/// The token that stands first.
proof fn lemma_stands_first(tokens: Seq<Seq<char>>, pos: int, part: Seq<Seq<char>>)
    requires
        stands_at(tokens, pos, part),
        part.len() > 0,
    ensures
        0 <= pos < tokens.len(),
        tokens[pos] == part[0],
{
    assert(tokens.subrange(pos, pos + part.len())[0] == part[0]);
}

/// The parser reads the tokens of a composition as its terms.
proof fn lemma_comp_parses(
    tokens: Seq<Seq<char>>,
    pos: int,
    alt: AlternationView,
    comp: CompositionView,
    terms: CompositionView,
)
    requires
        comp_written(terms),
        stands_at(tokens, pos, comp_tokens(terms)),
    ensures
        body_from(tokens, pos, alt, comp) == body_from(
            tokens,
            pos + comp_tokens(terms).len(),
            alt,
            comp + terms,
        ),
    decreases terms, 0nat,
{
    if terms.len() == 0 {
        assert(comp + terms =~= comp);
    } else {
        let first = terms[0];
        let rest = terms.drop_first();
        let written = term_tokens(first);
        lemma_stands_split(tokens, pos, written, comp_tokens(rest));
        assert(term_written(first));
        assert forall|j: int| 0 <= j < rest.len() implies term_written(#[trigger] rest[j]) by {
            assert(rest[j] == terms[j + 1]);
        }
        lemma_symbols_differ(INCREMENT, GROUP_CLOSE);
        lemma_symbols_differ(INCREMENT, SEPARATOR);
        lemma_symbols_differ(INCREMENT, GROUP_OPEN);
        lemma_symbols_differ(DECREMENT, GROUP_CLOSE);
        lemma_symbols_differ(DECREMENT, SEPARATOR);
        lemma_symbols_differ(DECREMENT, GROUP_OPEN);
        lemma_symbols_differ(DECREMENT, INCREMENT);
        lemma_symbols_differ(GROUP_OPEN, GROUP_CLOSE);
        lemma_symbols_differ(GROUP_OPEN, SEPARATOR);
        match first {
            TermView::Group(inner) => {
                let body = body_tokens(inner);
                lemma_stands_split(tokens, pos, seq![symbol(GROUP_OPEN)], body);
                lemma_stands_first(tokens, pos, seq![symbol(GROUP_OPEN)]);
                lemma_body_parses(tokens, pos + 1, Seq::empty(), Seq::empty(), inner);
                let read = Seq::<CompositionView>::empty().push(
                    Seq::<TermView>::empty() + inner[0],
                ) + inner.drop_first();
                assert(read =~~= inner);
                let next = pos + 1 + body.len();
                assert(body_from(tokens, pos, alt, comp) == body_from(
                    tokens,
                    next,
                    alt,
                    comp.push(first),
                ));
                lemma_comp_parses(tokens, next, alt, comp.push(first), rest);
            },
            _ => {
                lemma_stands_first(tokens, pos, written);
                assert(plain_term(tokens[pos]) == first);
                lemma_comp_parses(tokens, pos + 1, alt, comp.push(first), rest);
            },
        }
        assert(comp.push(first) + rest =~= comp + terms);
    }
}

/// The parser reads the tokens of a body as its compositions.
proof fn lemma_body_parses(
    tokens: Seq<Seq<char>>,
    pos: int,
    alt: AlternationView,
    comp: CompositionView,
    body: AlternationView,
)
    requires
        body_written(body),
        stands_at(tokens, pos, body_tokens(body)),
    ensures
        body_from(tokens, pos, alt, comp) == Some(
            (alt.push(comp + body[0]) + body.drop_first(), pos + body_tokens(body).len()),
        ),
    decreases body, 0nat,
{
    let first = comp_tokens(body[0]);
    let mid = pos + first.len();
    assert(comp_written(body[0]));
    if body.len() == 1 {
        lemma_stands_split(tokens, pos, first, seq![symbol(GROUP_CLOSE)]);
        lemma_comp_parses(tokens, pos, alt, comp, body[0]);
        lemma_stands_first(tokens, mid, seq![symbol(GROUP_CLOSE)]);
        assert(alt.push(comp + body[0]) + body.drop_first() =~= alt.push(comp + body[0]));
    } else {
        let rest = body.drop_first();
        assert(first + seq![symbol(SEPARATOR)] + body_tokens(rest) =~= first + (seq![
            symbol(SEPARATOR),
        ] + body_tokens(rest)));
        lemma_stands_split(tokens, pos, first, seq![symbol(SEPARATOR)] + body_tokens(rest));
        lemma_stands_split(tokens, mid, seq![symbol(SEPARATOR)], body_tokens(rest));
        lemma_comp_parses(tokens, pos, alt, comp, body[0]);
        lemma_stands_first(tokens, mid, seq![symbol(SEPARATOR)]);
        lemma_symbols_differ(SEPARATOR, GROUP_CLOSE);
        assert forall|i: int| 0 <= i < rest.len() implies comp_written(#[trigger] rest[i]) by {
            assert(rest[i] == body[i + 1]);
        }
        lemma_body_parses(tokens, mid + 1, alt.push(comp + body[0]), Seq::empty(), rest);
        assert(alt.push(comp + body[0]).push(Seq::<TermView>::empty() + rest[0])
            + rest.drop_first() =~~= alt.push(comp + body[0]) + rest);
    }
}

/// Every body that can be written is read back from its tokens, wherever
/// they stand: the parser gives the body, and stops behind its closing token.
pub proof fn written_body_parses(
    before: Seq<Seq<char>>,
    body: AlternationView,
    after: Seq<Seq<char>>,
)
    requires
        body_written(body),
    ensures
        parse_group_spec(before + body_tokens(body) + after, before.len() as int) == Some(
            (body, (before.len() + body_tokens(body).len()) as int),
        ),
{
    let tokens = before + body_tokens(body) + after;
    let pos = before.len() as int;
    assert(tokens.subrange(pos, pos + body_tokens(body).len()) =~= body_tokens(body));
    lemma_body_parses(tokens, pos, Seq::empty(), Seq::empty(), body);
    assert(Seq::<CompositionView>::empty().push(Seq::<TermView>::empty() + body[0])
        + body.drop_first() =~~= body);
}

/// What was read of a body from one position on: the terms that followed
/// the first `terms` of composition `comps`, and the compositions after it.
pub open spec fn read_part(read: AlternationView, comps: int, terms: int) -> AlternationView {
    seq![read[comps].skip(terms)] + read.skip(comps + 1)
}

/// The tokens of a body whose first composition starts with `term`.
proof fn lemma_tokens_of_first_term(term: TermView, terms: CompositionView, more: AlternationView)
    ensures
        body_tokens(seq![seq![term] + terms] + more) == term_tokens(term) + body_tokens(
            seq![terms] + more,
        ),
{
    let with = seq![seq![term] + terms] + more;
    let without = seq![terms] + more;
    assert(with[0].drop_first() =~= terms);
    assert(comp_tokens(with[0]) == term_tokens(term) + comp_tokens(terms));
    if more.len() == 0 {
        assert(body_tokens(with) =~= term_tokens(term) + body_tokens(without));
    } else {
        assert(with.drop_first() =~= more);
        assert(without.drop_first() =~= more);
        assert(body_tokens(with) =~= term_tokens(term) + body_tokens(without));
    }
}

/// The tokens of a body whose first composition is empty and not the last.
proof fn lemma_tokens_of_separator(more: AlternationView)
    requires
        more.len() > 0,
    ensures
        body_tokens(seq![Seq::<TermView>::empty()] + more) == seq![symbol(SEPARATOR)]
            + body_tokens(more),
{
    let with = seq![Seq::<TermView>::empty()] + more;
    assert(with.drop_first() =~= more);
    assert(with[0].len() == 0);
    assert(comp_tokens(with[0]) =~= Seq::<Seq<char>>::empty());
    assert(body_tokens(with) =~= seq![symbol(SEPARATOR)] + body_tokens(more));
}

/// After one more term was read, the part that was read starts with it.
proof fn lemma_read_part_grows(
    read: AlternationView,
    comps: int,
    comp: CompositionView,
    term: TermView,
)
    requires
        0 <= comps < read.len(),
        read[comps].len() > comp.len(),
        read[comps].take(comp.len() as int + 1) == comp.push(term),
        body_written(read_part(read, comps, comp.len() as int + 1)),
        term_written(term),
    ensures
        read[comps].take(comp.len() as int) == comp,
        read_part(read, comps, comp.len() as int) == seq![
            seq![term] + read[comps].skip(comp.len() as int + 1),
        ] + read.skip(comps + 1),
        body_written(read_part(read, comps, comp.len() as int)),
{
    let whole = read[comps];
    let n = comp.len() as int;
    assert(whole.take(n + 1)[n] == term);
    assert(whole.take(n) =~= comp) by {
        assert forall|j: int| 0 <= j < n implies whole[j] == comp[j] by {
            assert(whole.take(n + 1)[j] == comp.push(term)[j]);
        }
    }
    assert(whole.skip(n) =~= seq![term] + whole.skip(n + 1));
    let after = read_part(read, comps, n + 1);
    let now = read_part(read, comps, n);
    assert forall|i: int| 0 <= i < now.len() implies comp_written(#[trigger] now[i]) by {
        assert(comp_written(after[i]));
        if i == 0 {
            assert forall|j: int| 0 <= j < now[0].len() implies term_written(
                #[trigger] now[0][j],
            ) by {
                if j > 0 {
                    assert(now[0][j] == after[0][j - 1]);
                }
            }
        } else {
            assert(now[i] == after[i]);
        }
    }
}

/// What the parser reads from a position on can be written, and the tokens
/// that it read are those that write it.
proof fn lemma_body_was_written(
    tokens: Seq<Seq<char>>,
    pos: int,
    alt: AlternationView,
    comp: CompositionView,
)
    requires
        body_from(tokens, pos, alt, comp) is Some,
    ensures
        ({
            let (read, next) = body_from(tokens, pos, alt, comp)->Some_0;
            let part = read_part(read, alt.len() as int, comp.len() as int);
            &&& 0 <= pos < next <= tokens.len()
            &&& read.len() > alt.len()
            &&& read.take(alt.len() as int) == alt
            &&& read[alt.len() as int].len() >= comp.len()
            &&& read[alt.len() as int].take(comp.len() as int) == comp
            &&& body_written(part)
            &&& tokens.subrange(pos, next) == body_tokens(part)
        }),
    decreases tokens.len() - pos,
{
    let (read, next) = body_from(tokens, pos, alt, comp)->Some_0;
    let comps = alt.len() as int;
    let terms = comp.len() as int;
    let part = read_part(read, comps, terms);
    let token = tokens[pos];
    lemma_body_advances(tokens, pos, alt, comp);
    if token == symbol(GROUP_CLOSE) {
        assert(read.take(comps) =~= alt);
        assert(read[comps].take(terms) =~= comp);
        assert(part =~~= seq![Seq::<TermView>::empty()]);
        assert(part.len() == 1 && part[0].len() == 0);
        assert(comp_tokens(part[0]) =~= Seq::<Seq<char>>::empty());
        assert(body_tokens(part) =~= seq![symbol(GROUP_CLOSE)]);
        assert(tokens.subrange(pos, next) =~= seq![token]);
    } else if token == symbol(SEPARATOR) {
        lemma_body_was_written(tokens, pos + 1, alt.push(comp), Seq::empty());
        let more = read_part(read, comps + 1, 0);
        assert(read.take(comps) =~= alt) by {
            assert forall|i: int| 0 <= i < comps implies read[i] == alt[i] by {
                assert(read.take(comps + 1)[i] == alt.push(comp)[i]);
            }
        }
        assert(read[comps] == comp) by {
            assert(read.take(comps + 1)[comps] == alt.push(comp)[comps]);
        }
        assert(read[comps].take(terms) =~= comp);
        assert(part =~~= seq![Seq::<TermView>::empty()] + more);
        lemma_tokens_of_separator(more);
        assert forall|i: int| 0 <= i < part.len() implies comp_written(#[trigger] part[i]) by {
            if i > 0 {
                assert(part[i] == more[i - 1]);
            }
        }
        assert(tokens.subrange(pos, next) =~= seq![symbol(SEPARATOR)] + tokens.subrange(
            pos + 1,
            next,
        ));
    } else if token == symbol(GROUP_OPEN) {
        lemma_body_was_written(tokens, pos + 1, Seq::empty(), Seq::empty());
        let (inner, mid) = body_from(tokens, pos + 1, Seq::empty(), Seq::empty())->Some_0;
        assert(read_part(inner, 0, 0) =~~= inner);
        let term = TermView::Group(inner);
        lemma_body_was_written(tokens, mid, alt, comp.push(term));
        lemma_read_part_grows(read, comps, comp, term);
        lemma_tokens_of_first_term(
            term,
            read[comps].skip(terms + 1),
            read.skip(comps + 1),
        );
        assert(tokens.subrange(pos, next) =~= seq![symbol(GROUP_OPEN)] + tokens.subrange(
            pos + 1,
            mid,
        ) + tokens.subrange(mid, next));
        assert(seq![symbol(GROUP_OPEN)] + body_tokens(inner) + body_tokens(
            read_part(read, comps, terms + 1),
        ) =~= term_tokens(term) + body_tokens(read_part(read, comps, terms + 1)));
    } else {
        let term = plain_term(token);
        lemma_body_was_written(tokens, pos + 1, alt, comp.push(term));
        assert(term_written(term));
        lemma_read_part_grows(read, comps, comp, term);
        lemma_tokens_of_first_term(
            term,
            read[comps].skip(terms + 1),
            read.skip(comps + 1),
        );
        assert(term_tokens(term) =~= seq![token]);
        assert(tokens.subrange(pos, next) =~= seq![token] + tokens.subrange(pos + 1, next));
    }
}

/// Every body that the parser reads can be written, and the tokens that the
/// parser read are the tokens that write it.
pub proof fn parsed_body_was_written(tokens: Seq<Seq<char>>, pos: int)
    requires
        parse_group_spec(tokens, pos) is Some,
    ensures
        ({
            let (body, next) = parse_group_spec(tokens, pos)->Some_0;
            &&& 0 <= pos < next <= tokens.len()
            &&& body_written(body)
            &&& tokens.subrange(pos, next) == body_tokens(body)
        }),
{
    lemma_body_was_written(tokens, pos, Seq::empty(), Seq::empty());
    let (body, next) = parse_group_spec(tokens, pos)->Some_0;
    assert(read_part(body, 0, 0) =~~= body);
}

/// No two bodies are written with the same tokens.
pub proof fn written_bodies_differ(first: AlternationView, second: AlternationView)
    requires
        body_written(first),
        body_written(second),
        body_tokens(first) == body_tokens(second),
    ensures
        first == second,
{
    let none = Seq::<Seq<char>>::empty();
    written_body_parses(none, first, none);
    written_body_parses(none, second, none);
}

} // verus!
