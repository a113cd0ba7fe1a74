//! The built-in predicate registry — `eq` and `neq`, and nothing else.
//!
//! A predicate's truth is computed from the bindings, where a relation's
//! truth is data. The set of names reaches output: `names()` is sorted and
//! is what stops the blind enumerator proposing `eq` as a graph object.
use vstd::prelude::*;

use crate::text::str_eq;

verus! {

/// A registered built-in predicate.
#[derive(Clone, Copy, PartialEq, Eq, Hash, Debug)]
pub enum Pred {
    Eq,
    Neq,
}

impl Pred {
    pub open spec fn name(self) -> Seq<char> {
        match self {
            Pred::Eq => seq!['e', 'q'],
            Pred::Neq => seq!['n', 'e', 'q'],
        }
    }

    pub fn as_str(self) -> (s: &'static str)
        ensures
            s@ == self.name(),
    {
        match self {
            Pred::Eq => {
                proof { reveal_strlit("eq"); }
                "eq"
            },
            Pred::Neq => {
                proof { reveal_strlit("neq"); }
                "neq"
            },
        }
    }

    /// How many arguments the predicate reads, and therefore how many it may
    /// be written with.
    pub fn arity(self) -> (n: usize)
        ensures
            n == 2,
    {
        match self {
            Pred::Eq | Pred::Neq => 2,
        }
    }
}

/// The predicate a head name denotes, if any.
pub open spec fn lookup(name: Seq<char>) -> Option<Pred> {
    if name == Pred::Eq.name() {
        Some(Pred::Eq)
    } else if name == Pred::Neq.name() {
        Some(Pred::Neq)
    } else {
        None
    }
}

/// `predicates.get(name)` — the predicate for a head name, or `None`.
pub fn get(name: &str) -> (r: Option<Pred>)
    ensures
        r == lookup(name@),
{
    proof {
        reveal_strlit("eq");
        reveal_strlit("neq");
        assert("eq"@ =~= Pred::Eq.name());
        assert("neq"@ =~= Pred::Neq.name());
    }
    if str_eq(name, "eq") {
        Some(Pred::Eq)
    } else if str_eq(name, "neq") {
        Some(Pred::Neq)
    } else {
        None
    }
}

/// `predicates.is_predicate(name)`.
pub fn is_predicate(name: &str) -> (b: bool)
    ensures
        b == (lookup(name@) is Some),
{
    get(name).is_some()
}

/// Every registered name, sorted.
pub fn names() -> (r: [&'static str; 2])
    ensures
        r[0]@ == Pred::Eq.name(),
        r[1]@ == Pred::Neq.name(),
{
    [Pred::Eq.as_str(), Pred::Neq.as_str()]
}

/// Every registered name denotes its own predicate, and no other name
/// denotes one.
pub proof fn lemma_registry_round_trip(p: Pred)
    ensures
        lookup(p.name()) == Some(p),
{
    assert(Pred::Eq.name() != Pred::Neq.name()) by {
        assert(Pred::Eq.name().len() != Pred::Neq.name().len());
    }
}

} // verus!
