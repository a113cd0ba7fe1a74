# ein_infer

The search-and-inference layer of the ein engine, as a verified library.

- `src/` — the library, every function proved by Verus against its contract.
  The engine's interned state is modelled as plain values: a fact is a row of
  a `facts::FactTable`, a symbol an index into its names, a hypothesis set a
  strictly ascending `Vec<u32>`.
  - `apriori`, `nogoods`, `canon` — the commitment lattice: canonical sets,
    the prefix join (each same-prefix pair joined once, in tuple order),
    the candidate filter, the no-good store with
    subsumption, and canonical state identity.
  - `oblgen`, `hypgen`, `closed`, `naf_deps` — the hypothesis ladder's
    decisions (which rung, what is owed, what is scoped out, in what walk
    order), its counters and report, closed relations, and the static NAF map
    with its advisories.
  - `contradiction`, `explain`, `commitment`, `lookahead` — contradiction
    detection, minimal explanation frontiers over a proof store, which
    commitments die, and the lookahead that kills a candidate before it is
    entered.
  - `mirror`, `boundary`, `hrule`, `obligations`, `plan`, `firing`,
    `compile`, `predicates` — the saturator's pieces: the mirror of
    symmetric relations, the stratification boundary's one admission per
    round, the h-rule activations, the obligation tally and the plan
    registers.
  - `match_` — the register matcher: a plan's premises joined against the
    KB in nested-loop order, with seeded (semi-naive) runs and the lifted
    guards' `holds` questions.
  - `sanity` — the commutativity check of a commitment's state key.
  - `expect` — checking a query's `:expect` against what the search answered,
    with a perfect matching between expected and found models.
  - `alive_set` — the alive-set invariant: the baseline a loaded program
    names, and the facts and rule conclusions that breach it.
  - `events`, `fork_audit`, `text`, `facts` — the event protocol's lines,
    the per-entering audit record, and the text they are made of.
  - `mt19937` — CPython's Mersenne Twister, for `--shuffle`.
- `tests/` — the tests, run against the compiled library.
- `app/` — what stands around it: event sinks, the environment's switches,
  the audit file, floating-point scores, and the errors' `Display`.

`saturator::saturate` runs guard-free rules (a compiled `match_::Plan` and
its `:assert` templates) to the fixed point over the plain-value fact table,
firing through `firing::fire`. Its contract gives the fixed point, that
every fact it adds is the conclusion of some rule over the KB before that
fact was written (the least fixed point), the count of productive firings
(exact for rules with one conclusion), and when the step budget stops it.

`commitment::try_commitment_set` forks a root KB, writes a commitment's
hypotheses, and judges the fork dead before saturation, dead after it, or
alive, saturating through `saturate`. What it does not compute is the
provenance-based unsat core and the alive node's owed obligations: the fact
table keeps no provenance.

`compile` lowers a `:match`'s nodes (a `compile::Term` over the table's
symbols) into slots and relation steps, allocating registers in the order
variables are met.

Not here, in either `src/` or `app/`: the rest of the rule compiler (the
walk over a rule's disjuncts, guard sub-plans with their projected register
spaces, probes and shared-variable spans), the engine's queue-driven
saturator that admits guarded candidates through the stratification
boundary and interleaves the mirror and h-rules, and the engine that
memoises plans. They read the parsed program of the engine's core crates,
which this crate does not have. The decisions those parts make stand here
as functions that take what they read as arguments: `boundary` admits one
candidate a round, `lookahead` judges guards in the KB plus a candidate,
`commitment::dead` / `kills` judge a fork from its proof store, and
`oblgen` / `obligations` plan and tally the ladder's rungs from the runs
they are given.
