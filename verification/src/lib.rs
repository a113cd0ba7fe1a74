//! The search-and-inference layer of the ein engine: the commitment
//! lattice's arithmetic and no-good store, the hypothesis ladder's
//! decisions and bookkeeping, the saturator's mirror and stratification
//! boundary, the register matcher, firing and guard-free saturation, the
//! obligation tally and its lookahead, contradiction
//! detection and minimal explanations, the check of a query's `:expect`,
//! the alive-set invariant, the static NAF map, the commutativity check,
//! the event protocol and CPython's Mersenne Twister.
use vstd::prelude::*;

pub mod boundary;
pub mod canon;
pub mod closed;
pub mod commitment;
pub mod compile;
pub mod contradiction;
pub mod events;
pub mod expect;
pub mod explain;
pub mod facts;
pub mod firing;
pub mod fork_audit;
pub mod fxset;
pub mod hrule;
pub mod hypgen;
pub mod alive_set;
pub mod apriori;
pub mod lookahead;
pub mod match_;
pub mod mirror;
pub mod mt19937;
pub mod naf_deps;
pub mod nogoods;
pub mod obligations;
pub mod oblgen;
pub mod plan;
pub mod text;
pub mod predicates;
pub mod sanity;
pub mod saturator;

verus! {
} // verus!
