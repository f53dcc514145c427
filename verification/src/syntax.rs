//! Definition trees of the language, the library that holds them, and their
//! mathematical models.

use vstd::hash_map::StringHashMap;
use vstd::prelude::*;

verus! {

/// A value of the language: a natural number, or `None` for "undefined".
pub type Value = Option<u64>;

/// One step of a composition.
#[derive(Debug, PartialEq, Eq)]
pub enum Term {
    /// Adds one to the value.
    Increment,
    /// Subtracts one from the value.
    Decrement,
    /// An anonymous nested alternation.
    Group(Alternation),
    /// A reference to a named definition, resolved when it is evaluated.
    Call(String),
}

/// Terms run left to right against one threaded value.
pub type Composition = Vec<Term>;

/// Compositions tried left to right; the first that yields a defined value wins.
pub type Alternation = Vec<Composition>;

/// The mathematical model of a [`Term`]: the same tree over sequences.
pub enum TermView {
    Increment,
    Decrement,
    Group(Seq<Seq<TermView>>),
    Call(Seq<char>),
}

/// The model of a [`Composition`].
pub type CompositionView = Seq<TermView>;

/// The model of an [`Alternation`].
pub type AlternationView = Seq<Seq<TermView>>;

/// The model of a [`Library`]: a map from names to definition bodies.
pub type LibraryView = Map<Seq<char>, AlternationView>;

/// The model of a term, by recursion over the tree.
pub open spec fn term_view(t: Term) -> TermView
    decreases t,
{
    match t {
        Term::Increment => TermView::Increment,
        Term::Decrement => TermView::Decrement,
        Term::Group(alt) => TermView::Group(
            Seq::new(
                alt@.len(),
                |i: int|
                    if 0 <= i < alt@.len() {
                        Seq::new(
                            alt@[i]@.len(),
                            |j: int|
                                if 0 <= j < alt@[i]@.len() {
                                    term_view(alt@[i]@[j])
                                } else {
                                    TermView::Increment
                                },
                        )
                    } else {
                        Seq::empty()
                    },
            ),
        ),
        Term::Call(name) => TermView::Call(name@),
    }
}

impl DeepView for Term {
    type V = TermView;

    open spec fn deep_view(&self) -> TermView {
        term_view(*self)
    }
}

/// The model of a group is the group of the models: `deep_view` goes through
/// the two levels of vectors.
pub proof fn lemma_group_view(alt: Alternation)
    ensures
        Term::Group(alt).deep_view() == TermView::Group(alt.deep_view()),
{
    let inner = Term::Group(alt).deep_view()->Group_0;
    assert(inner.len() == alt.deep_view().len());
    assert forall|i: int| 0 <= i < inner.len() implies inner[i] == alt.deep_view()[i] by {
        assert(inner[i] =~= alt@[i].deep_view());
    }
    assert(inner =~= alt.deep_view());
}

/// The alternation of one composition of one term: the body `term }`.
pub open spec fn single(term: TermView) -> AlternationView {
    seq![seq![term]]
}

/// The alternation that calls `name` and does nothing else: where the
/// evaluation of a program starts.
pub fn call(name: &str) -> (alt: Alternation)
    ensures
        alt.deep_view() == single(TermView::Call(name@)),
{
    let mut comp: Composition = Vec::new();
    comp.push(Term::Call(name.to_owned()));
    let mut alt: Alternation = Vec::new();
    alt.push(comp);
    assert(alt.deep_view() =~~= single(TermView::Call(name@)));
    alt
}

/// The named definitions of a program.
pub struct Library {
    map: StringHashMap<Alternation>,
}

impl View for Library {
    type V = LibraryView;

    closed spec fn view(&self) -> LibraryView {
        self.map@.map_values(|a: Alternation| a.deep_view())
    }
}

impl Library {
    /// A library without definitions.
    pub fn new() -> (lib: Library)
        ensures
            lib@ == Map::<Seq<char>, AlternationView>::empty(),
    {
        let lib = Library { map: StringHashMap::new() };
        assert(lib@ =~= Map::<Seq<char>, AlternationView>::empty());
        lib
    }

    /// Binds `name` to `body`, replacing what the name was bound to before.
    pub fn insert(&mut self, name: String, body: Alternation)
        ensures
            final(self)@ == old(self)@.insert(name@, body.deep_view()),
    {
        let ghost key = name@;
        let ghost model = body.deep_view();
        self.map.insert(name, body);
        assert(self@ =~= old(self)@.insert(key, model));
    }

    /// The body bound to `name`, if there is one.
    pub fn get(&self, name: &str) -> (found: Option<&Alternation>)
        ensures
            match found {
                Some(body) => self@.contains_key(name@) && body.deep_view() == self@[name@],
                None => !self@.contains_key(name@),
            },
    {
        self.map.get(name)
    }

    /// The number of names that are bound.
    pub fn len(&self) -> (n: usize)
        ensures
            n == self@.len(),
    {
        broadcast use vstd::hash_map::group_hash_map_axioms;

        assert(self@.dom() =~= self.map@.dom());
        self.map.len()
    }
}

} // verus!
