//! Hypothesis generation's bookkeeping and scoping: the filter and skip
//! names, the per-call counters and the `--hyp-stats` report they print,
//! the query keywords that scope which relations are guessed on, and the
//! relations the generator can still propose.
//!
//! The filter order decides which counter a drop is attributed to, and the
//! counters are compared between implementations, so the names and their
//! sorted order are part of the observable surface.
use vstd::prelude::*;

use rustc_hash::FxHashSet;

use crate::contradiction::FactBase;
use crate::events::{event_text, json_str, sexpr, with_key, Events, Line};
use crate::facts::{intern_fact, lookup, probe, probe_fact, sym, unique_rows, Arg, FactTable};
use crate::mirror::kb_ok;
use crate::fxset::{contains_id, empty_set, insert_id};
use crate::hrule::{atom_sym, known_syms, QueryNode};
use crate::oblgen::{allowed_view, scope_of, scoping, Mode, RelationDecl, RungReport};
use crate::text::{
    digits, lemma_text_irrefl, lemma_text_total, lemma_text_trans, order_by_text, padded, push_digits, push_padded,
    push_repr, push_spaces, py_repr, spaces, str_eq, str_less, text_before, text_less, text_order, texts,
};

verus! {

/// The `(query …)` keyword restricting which relations the blind enumerator
/// builds candidates for.
pub const HYPOTHESIS_RELATIONS: &'static str = "hypothesis-relations";

/// Its exclusion dual: relations never to guess on.
pub const NO_HYPOTHESIS: &'static str = "no-hypothesis";

/// A candidate-level filter — the name it bumps in `stats.filtered`, and the
/// `verdict` a `hyp` event carries. Declared in sorted key order, which is
/// the order both readers walk them in.
#[derive(Clone, Copy, PartialEq, Eq, Debug)]
pub enum Drop {
    FactAlreadyExists,
    LookaheadKilled,
    NegatedFact,
    SeenInCall,
}

/// A pre-candidate skip — structural, at the relation/slot level, before any
/// candidate fact exists. Sorted key order, as [`Drop`].
#[derive(Clone, Copy, PartialEq, Eq, Debug)]
pub enum Skip {
    ClosedRelation,
    NoHypothesisRelation,
    RelationNotWhitelisted,
    SelfEdge,
}

impl Drop {
    pub open spec fn name(self) -> Seq<char> {
        match self {
            Drop::FactAlreadyExists => seq![
                'f', 'a', 'c', 't', '_', 'a', 'l', 'r', 'e', 'a', 'd', 'y', '_', 'e', 'x', 'i', 's', 't', 's'
            ],
            Drop::LookaheadKilled => seq![
                'l', 'o', 'o', 'k', 'a', 'h', 'e', 'a', 'd', '_', 'k', 'i', 'l', 'l', 'e', 'd'
            ],
            Drop::NegatedFact => seq!['n', 'e', 'g', 'a', 't', 'e', 'd', '_', 'f', 'a', 'c', 't'],
            Drop::SeenInCall => seq!['s', 'e', 'e', 'n', '_', 'i', 'n', '_', 'c', 'a', 'l', 'l'],
        }
    }

    /// The counter slot: the position in sorted key order.
    pub open spec fn slot(self) -> nat {
        match self {
            Drop::FactAlreadyExists => 0,
            Drop::LookaheadKilled => 1,
            Drop::NegatedFact => 2,
            Drop::SeenInCall => 3,
        }
    }

    pub open spec fn at(i: nat) -> Drop {
        if i == 0 {
            Drop::FactAlreadyExists
        } else if i == 1 {
            Drop::LookaheadKilled
        } else if i == 2 {
            Drop::NegatedFact
        } else {
            Drop::SeenInCall
        }
    }

    pub fn as_str(self) -> (s: &'static str)
        ensures
            s@ == self.name(),
    {
        match self {
            Drop::FactAlreadyExists => {
                proof {
                    reveal_strlit("fact_already_exists");
                }
                "fact_already_exists"
            },
            Drop::LookaheadKilled => {
                proof {
                    reveal_strlit("lookahead_killed");
                }
                "lookahead_killed"
            },
            Drop::NegatedFact => {
                proof {
                    reveal_strlit("negated_fact");
                }
                "negated_fact"
            },
            Drop::SeenInCall => {
                proof {
                    reveal_strlit("seen_in_call");
                }
                "seen_in_call"
            },
        }
    }

    pub fn index(self) -> (i: usize)
        ensures
            i == self.slot(),
    {
        match self {
            Drop::FactAlreadyExists => 0,
            Drop::LookaheadKilled => 1,
            Drop::NegatedFact => 2,
            Drop::SeenInCall => 3,
        }
    }

    pub fn from_index(i: usize) -> (d: Drop)
        requires
            i < 4,
        ensures
            d == Drop::at(i as nat),
            d.slot() == i,
    {
        if i == 0 {
            Drop::FactAlreadyExists
        } else if i == 1 {
            Drop::LookaheadKilled
        } else if i == 2 {
            Drop::NegatedFact
        } else {
            Drop::SeenInCall
        }
    }
}

impl Skip {
    pub open spec fn name(self) -> Seq<char> {
        match self {
            Skip::ClosedRelation => seq![
                'c', 'l', 'o', 's', 'e', 'd', '_', 'r', 'e', 'l', 'a', 't', 'i', 'o', 'n'
            ],
            Skip::NoHypothesisRelation => seq![
                'n', 'o', '_', 'h', 'y', 'p', 'o', 't', 'h', 'e', 's', 'i', 's', '_', 'r', 'e', 'l', 'a', 't', 'i', 'o', 'n'
            ],
            Skip::RelationNotWhitelisted => seq![
                'r', 'e', 'l', 'a', 't', 'i', 'o', 'n', '_', 'n', 'o', 't', '_', 'w', 'h', 'i', 't', 'e', 'l', 'i', 's', 't', 'e', 'd'
            ],
            Skip::SelfEdge => seq!['s', 'e', 'l', 'f', '_', 'e', 'd', 'g', 'e'],
        }
    }

    pub open spec fn slot(self) -> nat {
        match self {
            Skip::ClosedRelation => 0,
            Skip::NoHypothesisRelation => 1,
            Skip::RelationNotWhitelisted => 2,
            Skip::SelfEdge => 3,
        }
    }

    pub open spec fn at(i: nat) -> Skip {
        if i == 0 {
            Skip::ClosedRelation
        } else if i == 1 {
            Skip::NoHypothesisRelation
        } else if i == 2 {
            Skip::RelationNotWhitelisted
        } else {
            Skip::SelfEdge
        }
    }

    pub fn as_str(self) -> (s: &'static str)
        ensures
            s@ == self.name(),
    {
        match self {
            Skip::ClosedRelation => {
                proof {
                    reveal_strlit("closed_relation");
                }
                "closed_relation"
            },
            Skip::NoHypothesisRelation => {
                proof {
                    reveal_strlit("no_hypothesis_relation");
                }
                "no_hypothesis_relation"
            },
            Skip::RelationNotWhitelisted => {
                proof {
                    reveal_strlit("relation_not_whitelisted");
                }
                "relation_not_whitelisted"
            },
            Skip::SelfEdge => {
                proof {
                    reveal_strlit("self_edge");
                }
                "self_edge"
            },
        }
    }

    pub fn index(self) -> (i: usize)
        ensures
            i == self.slot(),
    {
        match self {
            Skip::ClosedRelation => 0,
            Skip::NoHypothesisRelation => 1,
            Skip::RelationNotWhitelisted => 2,
            Skip::SelfEdge => 3,
        }
    }

    pub fn from_index(i: usize) -> (s: Skip)
        requires
            i < 4,
        ensures
            s == Skip::at(i as nat),
    {
        if i == 0 {
            Skip::ClosedRelation
        } else if i == 1 {
            Skip::NoHypothesisRelation
        } else if i == 2 {
            Skip::RelationNotWhitelisted
        } else {
            Skip::SelfEdge
        }
    }
}

/// Why a scoring mode could not produce a score: a mode reserved for later
/// and an unknown one are different failures, and a caller may tell them
/// apart.
#[derive(Clone, PartialEq, Eq, Debug)]
pub enum ScoreError {
    /// `NotImplementedError`.
    NotImplemented(String),
    /// `ValueError`.
    Unknown(String),
}

impl ScoreError {
    /// The message, as `Display` renders it.
    pub fn message(&self) -> (s: &str)
        ensures
            s@ == (match self {
                ScoreError::NotImplemented(m) => m@,
                ScoreError::Unknown(m) => m@,
            }),
    {
        match self {
            ScoreError::NotImplemented(m) => m.as_str(),
            ScoreError::Unknown(m) => m.as_str(),
        }
    }
}

/// How hypotheses are scored.
#[derive(Clone, Copy, PartialEq, Eq, Debug)]
pub enum Scoring {
    /// Every hypothesis scores zero, so ordering falls to the content
    /// tiebreakers.
    Neutral,
    /// `rel_w · |extent(R)| + obj_w · Σ |names[arg].as_arg|`.
    Popularity,
}

/// The reserved modes' message.
pub open spec fn reserved_text(mode: Seq<char>) -> Seq<char> {
    "hypgen-scoring="@ + py_repr(mode)
        + " is reserved for a follow-up stage; today only 'most-constrained' and 'popularity' are wired. See M1 P1.5as1.5a.7_hypgen_scoring_branch_info.md § T1.5a.7.3."@
}

/// An unknown mode's message.
pub open spec fn unknown_scoring_text(mode: Seq<char>) -> Seq<char> {
    "unknown hypgen-scoring mode: "@ + py_repr(mode) + " (expected 'most-constrained' or 'popularity')"@
}

/// The two reserved modes.
pub open spec fn is_reserved(mode: Seq<char>) -> bool {
    mode == "branch-info"@ || mode == "popularity+branch-info"@
}

/// A hypothesis score's decision: which scoring the setting `mode` (the
/// config's, when the KB has a config block) selects, or why none — the
/// reserved modes and unknown ones are told apart.
pub fn scoring(mode: Option<&str>) -> (r: Result<Scoring, ScoreError>)
    ensures
        match mode {
            None => r == Ok::<Scoring, ScoreError>(Scoring::Neutral),
            Some(m) => if m@ == "most-constrained"@ {
                r == Ok::<Scoring, ScoreError>(Scoring::Neutral)
            } else if m@ == "popularity"@ {
                r == Ok::<Scoring, ScoreError>(Scoring::Popularity)
            } else if is_reserved(m@) {
                r matches Err(ScoreError::NotImplemented(msg)) && msg@ == reserved_text(m@)
            } else {
                r matches Err(ScoreError::Unknown(msg)) && msg@ == unknown_scoring_text(m@)
            },
        },
{
    match mode {
        None => Ok(Scoring::Neutral),
        Some(m) => {
            if str_eq(m, "most-constrained") {
                Ok(Scoring::Neutral)
            } else if str_eq(m, "popularity") {
                Ok(Scoring::Popularity)
            } else if str_eq(m, "branch-info") || str_eq(m, "popularity+branch-info") {
                let mut msg = String::new();
                msg.append("hypgen-scoring=");
                push_repr(&mut msg, m);
                msg.append(
                    " is reserved for a follow-up stage; today only 'most-constrained' and 'popularity' are wired. See M1 P1.5as1.5a.7_hypgen_scoring_branch_info.md § T1.5a.7.3.",
                );
                Err(ScoreError::NotImplemented(msg))
            } else {
                let mut msg = String::new();
                msg.append("unknown hypgen-scoring mode: ");
                push_repr(&mut msg, m);
                msg.append(" (expected 'most-constrained' or 'popularity')");
                Err(ScoreError::Unknown(msg))
            }
        },
    }
}

/// Per-filter counters for one generation call.
///
/// A zero count means the key was never bumped, which is what lets the
/// report walk only the keys that exist.
#[derive(Clone, Debug)]
pub struct HypGenStats {
    pub raw: u64,
    pub emitted: u64,
    pub filtered: [u64; 4],
    pub pre_candidate: [u64; 4],
    /// Which rung of the ladder this call took, and what it found owed.
    pub rung: RungReport,
}

// ── The report, as text ──────────────────────────────────────────────

/// `"  label              value"` — a label padded to the report's column.
pub open spec fn stat_line(label: Seq<char>, value: Seq<char>) -> Seq<char> {
    spaces(2) + padded(label, 19) + value
}

/// `"  prefix.key          n"` — one counter of a keyed family.
pub open spec fn keyed_line(prefix: Seq<char>, key: Seq<char>, width: nat, n: nat) -> Seq<char> {
    spaces(2) + prefix + padded(key, width) + seq![' '] + digits(n)
}

pub open spec fn filtered_prefix() -> Seq<char> {
    seq!['f', 'i', 'l', 't', 'e', 'r', 'e', 'd', '.']
}

pub open spec fn pre_prefix() -> Seq<char> {
    seq!['p', 'r', 'e', '.']
}

/// The lines for the filters `0 .. i` that fired.
pub open spec fn drop_lines(f: Seq<u64>, i: nat) -> Seq<Seq<char>>
    decreases i,
{
    if i == 0 {
        Seq::empty()
    } else {
        let rest = drop_lines(f, (i - 1) as nat);
        if f[i - 1] > 0 {
            rest.push(keyed_line(filtered_prefix(), Drop::at((i - 1) as nat).name(), 18, f[i - 1] as nat))
        } else {
            rest
        }
    }
}

/// The lines for the skips `0 .. i` that fired.
pub open spec fn skip_lines(p: Seq<u64>, i: nat) -> Seq<Seq<char>>
    decreases i,
{
    if i == 0 {
        Seq::empty()
    } else {
        let rest = skip_lines(p, (i - 1) as nat);
        if p[i - 1] > 0 {
            rest.push(keyed_line(pre_prefix(), Skip::at((i - 1) as nat).name(), 23, p[i - 1] as nat))
        } else {
            rest
        }
    }
}

/// The obligations rung's lines — printed for that rung only, so a program
/// on the blind or hrule rung prints what it printed before the rung existed.
pub open spec fn rung_lines(r: RungReport) -> Seq<Seq<char>> {
    if r.mode == Mode::Obligations || r.mode == Mode::Stuck || r.mode == Mode::Declined {
        let head = seq![stat_line(seq!['r', 'u', 'n', 'g'], r.mode.name())];
        let counts = if r.owed > 0 || r.branches > 0 || r.declined > 0 {
            seq![
                stat_line(seq!['r', 'u', 'n', 'g', '.', 'o', 'w', 'e', 'd'], digits(r.owed as nat)),
                stat_line(
                    seq!['r', 'u', 'n', 'g', '.', 'b', 'r', 'a', 'n', 'c', 'h', 'e', 's'],
                    digits(r.branches as nat),
                ),
                stat_line(
                    seq!['r', 'u', 'n', 'g', '.', 'd', 'e', 'c', 'l', 'i', 'n', 'e', 'd'],
                    digits(r.declined as nat),
                ),
            ]
        } else {
            Seq::empty()
        };
        head + counts + seq![
            stat_line(
                seq!['r', 'u', 'n', 'g', '.', 'u', 'n', 'c', 'o', 'v', 'e', 'r', 'e', 'd'],
                digits(r.uncovered as nat),
            ),
        ]
    } else {
        Seq::empty()
    }
}

/// `HypGenStats.as_report_lines`: raw and emitted, then every filter and
/// skip that fired in sorted key order, then the obligations rung.
pub open spec fn report(s: HypGenStats) -> Seq<Seq<char>> {
    seq![
        stat_line(seq!['r', 'a', 'w'], digits(s.raw as nat)),
        stat_line(seq!['e', 'm', 'i', 't', 't', 'e', 'd'], digits(s.emitted as nat)),
    ] + drop_lines(s.filtered@, 4) + skip_lines(s.pre_candidate@, 4) + rung_lines(s.rung)
}

/// `raw == emitted + sum(filtered)` — the invariant the stage's acceptance
/// names.
pub open spec fn balanced(s: HypGenStats) -> bool {
    s.raw == s.emitted + s.filtered[0] + s.filtered[1] + s.filtered[2] + s.filtered[3]
}

fn stat_text(label: &str, value: u64) -> (r: String)
    ensures
        r@ == stat_line(label@, digits(value as nat)),
{
    let mut out = String::new();
    push_spaces(&mut out, 2);
    push_padded(&mut out, label, 19);
    push_digits(&mut out, value);
    assert(out@ =~= stat_line(label@, digits(value as nat)));
    out
}

fn keyed_text(prefix: &str, key: &str, width: usize, n: u64) -> (r: String)
    ensures
        r@ == keyed_line(prefix@, key@, width as nat, n as nat),
{
    let mut out = String::new();
    push_spaces(&mut out, 2);
    out.append(prefix);
    push_padded(&mut out, key, width);
    crate::text::push_char(&mut out, ' ');
    push_digits(&mut out, n);
    assert(out@ =~= keyed_line(prefix@, key@, width as nat, n as nat));
    out
}

impl HypGenStats {
    pub fn new() -> (s: HypGenStats)
        ensures
            s.raw == 0,
            s.emitted == 0,
            s.filtered@ == seq![0u64, 0, 0, 0],
            s.pre_candidate@ == seq![0u64, 0, 0, 0],
            s.rung == RungReport::zero(),
    {
        let s = HypGenStats {
            raw: 0,
            emitted: 0,
            filtered: [0, 0, 0, 0],
            pre_candidate: [0, 0, 0, 0],
            rung: RungReport::new(),
        };
        assert(s.filtered@ =~= seq![0u64, 0, 0, 0]);
        assert(s.pre_candidate@ =~= seq![0u64, 0, 0, 0]);
        s
    }

    /// Count one candidate dropped by `d`.
    pub fn bump(&mut self, d: Drop)
        requires
            old(self).filtered[d.slot() as int] < u64::MAX,
        ensures
            final(self).filtered@ == old(self).filtered@.update(
                d.slot() as int,
                (old(self).filtered[d.slot() as int] + 1) as u64,
            ),
            final(self).raw == old(self).raw,
            final(self).emitted == old(self).emitted,
            final(self).pre_candidate == old(self).pre_candidate,
            final(self).rung == old(self).rung,
    {
        let i = d.index();
        let v = self.filtered[i] + 1;
        self.filtered[i] = v;
    }

    /// Count one pre-candidate skip `s`.
    pub fn skip(&mut self, s: Skip)
        requires
            old(self).pre_candidate[s.slot() as int] < u64::MAX,
        ensures
            final(self).pre_candidate@ == old(self).pre_candidate@.update(
                s.slot() as int,
                (old(self).pre_candidate[s.slot() as int] + 1) as u64,
            ),
            final(self).raw == old(self).raw,
            final(self).emitted == old(self).emitted,
            final(self).filtered == old(self).filtered,
            final(self).rung == old(self).rung,
    {
        let i = s.index();
        let v = self.pre_candidate[i] + 1;
        self.pre_candidate[i] = v;
    }

    /// `raw == emitted + sum(filtered.values())`, checked rather than
    /// asserted in prose.
    pub fn balances(&self) -> (b: bool)
        ensures
            b == balanced(*self),
    {
        let total: u128 = self.emitted as u128 + self.filtered[0] as u128 + self.filtered[1] as u128
            + self.filtered[2] as u128 + self.filtered[3] as u128;
        self.raw as u128 == total
    }

    /// `HypGenStats.as_report_lines` — what `--hyp-stats` prints, field
    /// widths included. Keys sorted, and absent keys omitted.
    pub fn report_lines(&self) -> (lines: Vec<String>)
        ensures
            lines@.map_values(|l: String| l@) == report(*self),
    {
        let mut out: Vec<String> = Vec::new();
        proof {
            reveal_strlit("raw");
            reveal_strlit("emitted");
            reveal_strlit("filtered.");
            reveal_strlit("pre.");
            assert("raw"@ =~= seq!['r', 'a', 'w']);
            assert("emitted"@ =~= seq!['e', 'm', 'i', 't', 't', 'e', 'd']);
            assert("filtered."@ =~= filtered_prefix());
            assert("pre."@ =~= pre_prefix());
        }
        out.push(stat_text("raw", self.raw));
        out.push(stat_text("emitted", self.emitted));
        let ghost base = seq![
            stat_line(seq!['r', 'a', 'w'], digits(self.raw as nat)),
            stat_line(seq!['e', 'm', 'i', 't', 't', 'e', 'd'], digits(self.emitted as nat)),
        ];
        assert(out@.map_values(|l: String| l@) =~= base);
        let mut i: usize = 0;
        while i < 4
            invariant
                i <= 4,
                "filtered."@ == filtered_prefix(),
                out@.map_values(|l: String| l@) == base + drop_lines(self.filtered@, i as nat),
            decreases 4 - i,
        {
            let n = self.filtered[i];
            if n > 0 {
                let d = Drop::from_index(i);
                let line = keyed_text("filtered.", d.as_str(), 18, n);
                let ghost before = out@.map_values(|l: String| l@);
                out.push(line);
                assert(out@.map_values(|l: String| l@) =~= before.push(line@));
            }
            i = i + 1;
            assert(out@.map_values(|l: String| l@) =~= base + drop_lines(self.filtered@, i as nat));
        }
        let ghost base2 = base + drop_lines(self.filtered@, 4);
        let mut j: usize = 0;
        while j < 4
            invariant
                j <= 4,
                "pre."@ == pre_prefix(),
                out@.map_values(|l: String| l@) == base2 + skip_lines(self.pre_candidate@, j as nat),
            decreases 4 - j,
        {
            let n = self.pre_candidate[j];
            if n > 0 {
                let s = Skip::from_index(j);
                let line = keyed_text("pre.", s.as_str(), 23, n);
                let ghost before = out@.map_values(|l: String| l@);
                out.push(line);
                assert(out@.map_values(|l: String| l@) =~= before.push(line@));
            }
            j = j + 1;
            assert(out@.map_values(|l: String| l@) =~= base2 + skip_lines(self.pre_candidate@, j as nat));
        }
        let ghost base3 = base2 + skip_lines(self.pre_candidate@, 4);
        let r = &self.rung;
        let shown = match r.mode {
            Mode::Obligations | Mode::Stuck | Mode::Declined => true,
            _ => false,
        };
        if shown {
            proof {
                reveal_strlit("rung");
                reveal_strlit("rung.owed");
                reveal_strlit("rung.branches");
                reveal_strlit("rung.declined");
                reveal_strlit("rung.uncovered");
                assert("rung"@ =~= seq!['r', 'u', 'n', 'g']);
                assert("rung.owed"@ =~= seq!['r', 'u', 'n', 'g', '.', 'o', 'w', 'e', 'd']);
                assert("rung.branches"@ =~= seq![
                    'r', 'u', 'n', 'g', '.', 'b', 'r', 'a', 'n', 'c', 'h', 'e', 's'
                ]);
                assert("rung.declined"@ =~= seq![
                    'r', 'u', 'n', 'g', '.', 'd', 'e', 'c', 'l', 'i', 'n', 'e', 'd'
                ]);
                assert("rung.uncovered"@ =~= seq![
                    'r', 'u', 'n', 'g', '.', 'u', 'n', 'c', 'o', 'v', 'e', 'r', 'e', 'd'
                ]);
            }
            let mut head = String::new();
            push_spaces(&mut head, 2);
            push_padded(&mut head, "rung", 19);
            head.append(r.mode.as_str());
            assert(head@ =~= stat_line(seq!['r', 'u', 'n', 'g'], r.mode.name()));
            out.push(head);
            if r.owed > 0 || r.branches > 0 || r.declined > 0 {
                out.push(stat_text("rung.owed", r.owed));
                out.push(stat_text("rung.branches", r.branches));
                out.push(stat_text("rung.declined", r.declined));
            }
            out.push(stat_text("rung.uncovered", r.uncovered));
            assert(out@.map_values(|l: String| l@) =~= base3 + rung_lines(self.rung));
        } else {
            assert(out@.map_values(|l: String| l@) =~= base3 + rung_lines(self.rung));
        }
        out
    }
}

// ── Query-scoped relation sets ───────────────────────────────────────

/// The nodes a keyword's value declares relation names with: a bare atom
/// names one; an s-form names its head and each argument.
pub open spec fn name_nodes(v: QueryNode) -> Seq<QueryNode> {
    match v {
        QueryNode::Atom(_) => seq![v],
        QueryNode::Form(h, a) => seq![*h] + a@,
        _ => Seq::empty(),
    }
}

/// How many of `nodes` name something.
pub open spec fn named_count(nodes: Seq<QueryNode>) -> nat
    decreases nodes.len(),
{
    if nodes.len() == 0 {
        0
    } else {
        named_count(nodes.drop_last()) + if nodes.last() is Atom {
            1nat
        } else {
            0nat
        }
    }
}

/// The relation set under the first `:keyword` pair from `i` on: `None`
/// when no pair has the keyword, or when the first that has it declares no
/// name — an empty list is unrestricted — and otherwise the interned names
/// it declares. A declared name nothing interned still counts as declared.
pub open spec fn keyword_relations(tbl: &FactTable, pairs: Seq<QueryNode>, keyword: Seq<char>, i: int) -> Option<
    Set<u32>,
>
    decreases pairs.len() - i,
{
    if i < 0 || i >= pairs.len() {
        None
    } else {
        match pairs[i] {
            QueryNode::Pair(k, v) => match *k {
                QueryNode::Keyword(name) => if name@ == keyword {
                    if named_count(name_nodes(*v)) == 0 {
                        None
                    } else {
                        Some(known_syms(tbl, name_nodes(*v)).to_set())
                    }
                } else {
                    keyword_relations(tbl, pairs, keyword, i + 1)
                },
                _ => keyword_relations(tbl, pairs, keyword, i + 1),
            },
            _ => keyword_relations(tbl, pairs, keyword, i + 1),
        }
    }
}

/// The names a value declares, resolved, and whether it declared any.
fn coerce_relation_names(tbl: &FactTable, value: &QueryNode) -> (r: (FxHashSet<u32>, bool))
    requires
        tbl.names@.len() <= u32::MAX,
    ensures
        r.0@ == known_syms(tbl, name_nodes(*value)).to_set(),
        r.1 == (named_count(name_nodes(*value)) > 0),
{
    let mut out = empty_set();
    let ghost nodes = name_nodes(*value);
    match value {
        QueryNode::Atom(t) => {
            assert(nodes == seq![*value]);
            assert(nodes.drop_last() =~= Seq::<QueryNode>::empty());
            assert(known_syms(tbl, nodes.drop_last()) == Seq::<u32>::empty());
            assert(named_count(nodes.drop_last()) == 0);
            assert(nodes.last() == *value);
            match sym(tbl, t.as_str()) {
                Some(s) => {
                    insert_id(&mut out, s);
                    assert(known_syms(tbl, nodes) == seq![s]);
                    assert forall|x: u32| out@.contains(x) == seq![s].to_set().contains(x) by {
                        if x == s {
                            assert(seq![s][0] == s);
                        }
                    }
                    assert(out@ =~= seq![s].to_set());
                },
                None => {
                    assert(known_syms(tbl, nodes) =~= Seq::<u32>::empty());
                    assert(out@ =~= Seq::<u32>::empty().to_set());
                },
            }
            (out, true)
        },
        QueryNode::Form(h, a) => {
            let mut declared = false;
            assert(nodes.take(0) =~= Seq::<QueryNode>::empty());
            let ghost n = nodes.len();
            // The head, then each argument.
            let mut i: usize = 0;
            while i <= a.len()
                invariant
                    tbl.names@.len() <= u32::MAX,
                    nodes == seq![**h] + a@,
                    nodes == name_nodes(*value),
                    n == nodes.len(),
                    n == a@.len() + 1,
                    i <= n,
                    i < n,
                    out@ == known_syms(tbl, nodes.take(i as int)).to_set(),
                    declared == (named_count(nodes.take(i as int)) > 0),
                decreases n - i,
            {
                let node = if i == 0 {
                    &**h
                } else {
                    &a[i - 1]
                };
                let ghost p = nodes.take(i as int);
                let ghost q = nodes.take(i + 1);
                assert(*node == nodes[i as int]);
                assert(q.drop_last() =~= p);
                assert(q.last() == nodes[i as int]);
                let ghost before = known_syms(tbl, p);
                match node {
                    QueryNode::Atom(t) => {
                        declared = true;
                        match sym(tbl, t.as_str()) {
                            Some(s) => {
                                insert_id(&mut out, s);
                                assert(known_syms(tbl, q) == before.push(s));
                                assert(out@ =~= before.push(s).to_set()) by {
                                    assert forall|x: u32| out@.contains(x) == before.push(s).to_set().contains(x) by {
                                        crate::text::lemma_push_contains(before, s, x);
                                    }
                                }
                            },
                            None => {
                                assert(known_syms(tbl, q) == before);
                            },
                        }
                    },
                    _ => {
                        assert(known_syms(tbl, q) == before);
                    },
                }
                assert(out@ == known_syms(tbl, q).to_set());
                assert(declared == (named_count(q) > 0));
                if i == a.len() {
                    assert(q =~= nodes);
                    return (out, declared);
                }
                i = i + 1;
            }
            (out, declared)
        },
        _ => {
            assert(known_syms(tbl, nodes) =~= Seq::<u32>::empty());
            assert(out@ =~= Seq::<u32>::empty().to_set());
            (out, false)
        },
    }
}

/// The relation-name set under a `(query … :KEYWORD …)` keyword: `None`
/// when the keyword is absent — unrestricted — or declares no name; the
/// first pair with the keyword wins.
pub fn query_relations(tbl: &FactTable, kw_pairs: &[QueryNode], keyword: &str) -> (r: Option<FxHashSet<u32>>)
    requires
        tbl.names@.len() <= u32::MAX,
    ensures
        allowed_view(&r) == keyword_relations(tbl, kw_pairs@, keyword@, 0),
{
    let mut i: usize = 0;
    while i < kw_pairs.len()
        invariant
            tbl.names@.len() <= u32::MAX,
            i <= kw_pairs@.len(),
            keyword_relations(tbl, kw_pairs@, keyword@, 0) == keyword_relations(tbl, kw_pairs@, keyword@, i as int),
        decreases kw_pairs@.len() - i,
    {
        match &kw_pairs[i] {
            QueryNode::Pair(k, v) => match &**k {
                QueryNode::Keyword(name) => {
                    if crate::text::str_eq(name.as_str(), keyword) {
                        let (names, declared) = coerce_relation_names(tbl, &**v);
                        if !declared {
                            return None;
                        }
                        return Some(names);
                    }
                },
                _ => {},
            },
            _ => {},
        }
        i = i + 1;
    }
    None
}

/// Every relation marked `(__closed__ R)` in the KB: a marker fact whose
/// single argument is a name. `closed` is the marker's symbol, when it was
/// interned.
pub open spec fn closed_in(tbl: &FactTable, kb: Seq<u32>, closed: u32) -> Set<u32> {
    Set::new(
        |r: u32|
            exists|k: int|
                0 <= k < kb.len() && tbl.rows@[kb[k] as int].rel == closed && tbl.rows@[kb[k] as int].args@ == seq![
                    crate::facts::Arg::Sym(r),
                ],
    )
}

/// The relations the KB marks closed, under the interned marker.
pub open spec fn closed_set(tbl: &FactTable, kb: Seq<u32>) -> Set<u32> {
    match lookup(tbl, crate::closed::CLOSED@) {
        Some(c) => closed_in(tbl, kb, c),
        None => Set::empty(),
    }
}

/// The closed relations, read once per generation pass.
pub fn closed_relations(tbl: &FactTable, kb: &[u32], closed: Option<u32>) -> (r: FxHashSet<u32>)
    requires
        forall|k: int| 0 <= k < kb@.len() ==> (#[trigger] kb@[k]) < tbl.rows@.len(),
    ensures
        r@ == match closed {
            Some(c) => closed_in(tbl, kb@, c),
            None => Set::<u32>::empty(),
        },
{
    let mut out = empty_set();
    let c = match closed {
        Some(c) => c,
        None => {
            assert(out@ =~= Set::<u32>::empty());
            return out;
        },
    };
    let mut i: usize = 0;
    while i < kb.len()
        invariant
            forall|k: int| 0 <= k < kb@.len() ==> (#[trigger] kb@[k]) < tbl.rows@.len(),
            i <= kb@.len(),
            forall|r: u32| #[trigger] out@.contains(r) <==> closed_in(tbl, kb@.take(i as int), c).contains(r),
        decreases kb@.len() - i,
    {
        let f = kb[i];
        let row = &tbl.rows[f as usize];
        let ghost p = kb@.take(i as int);
        let ghost q = kb@.take(i + 1);
        assert forall|r: u32| closed_in(tbl, q, c).contains(r) <==> closed_in(tbl, p, c).contains(r) || (
        tbl.rows@[f as int].rel == c && tbl.rows@[f as int].args@ == seq![crate::facts::Arg::Sym(r)]) by {
            if closed_in(tbl, q, c).contains(r) {
                let k = choose|k: int|
                    0 <= k < q.len() && tbl.rows@[q[k] as int].rel == c && tbl.rows@[q[k] as int].args@ == seq![
                        crate::facts::Arg::Sym(r),
                    ];
                if k < i {
                    assert(p[k] == q[k]);
                }
            }
            if closed_in(tbl, p, c).contains(r) {
                let k = choose|k: int|
                    0 <= k < p.len() && tbl.rows@[p[k] as int].rel == c && tbl.rows@[p[k] as int].args@ == seq![
                        crate::facts::Arg::Sym(r),
                    ];
                assert(q[k] == p[k]);
            }
            if tbl.rows@[f as int].rel == c && tbl.rows@[f as int].args@ == seq![crate::facts::Arg::Sym(r)] {
                assert(q[i as int] == f);
            }
        }
        if row.rel == c && row.args.len() == 1 {
            match row.args[0] {
                crate::facts::Arg::Sym(r) => {
                    assert(row.args@ =~= seq![crate::facts::Arg::Sym(r)]);
                    insert_id(&mut out, r);
                },
                _ => {
                    assert forall|r: u32| tbl.rows@[f as int].args@ != seq![crate::facts::Arg::Sym(r)] by {
                        if tbl.rows@[f as int].args@ == seq![crate::facts::Arg::Sym(r)] {
                            assert(row.args@[0] == crate::facts::Arg::Sym(r));
                        }
                    }
                },
            }
        } else {
            assert forall|r: u32| !(tbl.rows@[f as int].rel == c && tbl.rows@[f as int].args@ == seq![
                crate::facts::Arg::Sym(r),
            ]) by {}
        }
        i = i + 1;
    }
    assert(kb@.take(kb@.len() as int) =~= kb@);
    assert(out@ =~= closed_in(tbl, kb@, c));
    out
}

/// What the ladder's rungs propose relations from: the relations a
/// program's hrules conclude, when it declares hrules; the `(open ?R)`
/// argument of each obligation plan, when it declares obligations; and
/// the declared relations.
pub struct Ladder {
    pub hrules: Option<Vec<u32>>,
    pub obligations: Option<Vec<Option<u32>>>,
    pub declared: Vec<RelationDecl>,
}

/// The relations this program's generator can still propose: with hrules,
/// exactly what they conclude, unscoped; with obligations, the relations
/// they owe; otherwise every declared relation with a signature — the
/// latter two less the closed, the excluded and the not-whitelisted.
pub open spec fn eligible(ladder: Ladder, allowed: Option<Set<u32>>, excluded: Set<u32>, closed: Set<u32>) -> Set<u32> {
    match ladder.hrules {
        Some(h) => h@.to_set(),
        None => match ladder.obligations {
            Some(o) => Set::new(
                |r: u32| o@.contains(Some(r)) && scope_of(r, allowed, excluded, closed) is None,
            ),
            None => Set::new(
                |r: u32|
                    exists|k: int|
                        0 <= k < ladder.declared@.len() && (#[trigger] ladder.declared@[k]).name == r
                            && ladder.declared@[k].arity != 0 && scope_of(r, allowed, excluded, closed) is None,
            ),
        },
    }
}

/// Which relations the generator can still propose, scoped by the query's
/// keywords and the KB's closed markers.
pub fn eligible_relations(
    tbl: &FactTable,
    kb: &[u32],
    kw_pairs: &[QueryNode],
    ladder: &Ladder,
) -> (r: FxHashSet<u32>)
    requires
        tbl.names@.len() <= u32::MAX,
        forall|k: int| 0 <= k < kb@.len() ==> (#[trigger] kb@[k]) < tbl.rows@.len(),
    ensures
        r@ == eligible(
            *ladder,
            keyword_relations(tbl, kw_pairs@, HYPOTHESIS_RELATIONS@, 0),
            match keyword_relations(tbl, kw_pairs@, NO_HYPOTHESIS@, 0) {
                Some(s) => s,
                None => Set::empty(),
            },
            closed_set(tbl, kb@),
        ),
{
    let mut out = empty_set();
    match &ladder.hrules {
        Some(h) => {
            let mut i: usize = 0;
            while i < h.len()
                invariant
                    i <= h@.len(),
                    forall|x: u32| #[trigger] out@.contains(x) <==> h@.take(i as int).contains(x),
                decreases h@.len() - i,
            {
                insert_id(&mut out, h[i]);
                proof {
                    assert(h@.take(i + 1) =~= h@.take(i as int).push(h@[i as int]));
                    assert forall|x: u32| #[trigger] out@.contains(x) <==> h@.take(i + 1).contains(x) by {
                        crate::text::lemma_push_contains(h@.take(i as int), h@[i as int], x);
                    }
                }
                i = i + 1;
            }
            assert(h@.take(h@.len() as int) =~= h@);
            assert(out@ =~= h@.to_set());
            return out;
        },
        None => {},
    }
    let allowed = query_relations(tbl, kw_pairs, HYPOTHESIS_RELATIONS);
    let excluded = match query_relations(tbl, kw_pairs, NO_HYPOTHESIS) {
        Some(e) => e,
        None => empty_set(),
    };
    let closed = closed_relations(tbl, kb, sym(tbl, crate::closed::CLOSED));
    let ghost ex = excluded@;
    let ghost cl = closed@;
    assert(ex == match keyword_relations(tbl, kw_pairs@, NO_HYPOTHESIS@, 0) {
        Some(s) => s,
        None => Set::<u32>::empty(),
    });
    match &ladder.obligations {
        Some(o) => {
            let mut i: usize = 0;
            while i < o.len()
                invariant
                    i <= o@.len(),
                    forall|x: u32| #[trigger] out@.contains(x) <==> (o@.take(i as int).contains(Some(x)) && scope_of(
                        x,
                        allowed_view(&allowed),
                        excluded@,
                        closed@,
                    ) is None),
                decreases o@.len() - i,
            {
                match o[i] {
                    Some(r) => {
                        if scoping(r, &allowed, &excluded, &closed).is_none() {
                            insert_id(&mut out, r);
                        }
                    },
                    None => {},
                }
                proof {
                    assert(o@.take(i + 1) =~= o@.take(i as int).push(o@[i as int]));
                    assert forall|x: u32| #[trigger] out@.contains(x) <==> (o@.take(i + 1).contains(Some(x))
                        && scope_of(x, allowed_view(&allowed), excluded@, closed@) is None) by {
                        crate::text::lemma_push_contains(o@.take(i as int), o@[i as int], Some(x));
                    }
                }
                i = i + 1;
            }
            assert(o@.take(o@.len() as int) =~= o@);
        },
        None => {
            let d = &ladder.declared;
            let mut i: usize = 0;
            while i < d.len()
                invariant
                    i <= d@.len(),
                    forall|x: u32| #[trigger] out@.contains(x) <==> exists|k: int|
                        0 <= k < i && (#[trigger] d@[k]).name == x && d@[k].arity != 0 && scope_of(
                            x,
                            allowed_view(&allowed),
                            excluded@,
                            closed@,
                        ) is None,
                decreases d@.len() - i,
            {
                let rd = d[i];
                if rd.arity != 0 && scoping(rd.name, &allowed, &excluded, &closed).is_none() {
                    insert_id(&mut out, rd.name);
                }
                proof {
                    assert forall|x: u32| #[trigger] out@.contains(x) <==> exists|k: int|
                        0 <= k < i + 1 && (#[trigger] d@[k]).name == x && d@[k].arity != 0 && scope_of(
                            x,
                            allowed_view(&allowed),
                            excluded@,
                            closed@,
                        ) is None by {
                        if out@.contains(x) && x != rd.name {
                            let k = choose|k: int|
                                0 <= k < i && (#[trigger] d@[k]).name == x && d@[k].arity != 0 && scope_of(
                                    x,
                                    allowed_view(&allowed),
                                    excluded@,
                                    closed@,
                                ) is None;
                        }
                        if exists|k: int|
                            0 <= k < i + 1 && (#[trigger] d@[k]).name == x && d@[k].arity != 0 && scope_of(
                                x,
                                allowed_view(&allowed),
                                excluded@,
                                closed@,
                            ) is None {
                            let k = choose|k: int|
                                0 <= k < i + 1 && (#[trigger] d@[k]).name == x && d@[k].arity != 0 && scope_of(
                                    x,
                                    allowed_view(&allowed),
                                    excluded@,
                                    closed@,
                                ) is None;
                            if k == i as int {
                                assert(d@[k] == rd);
                            }
                        }
                    }
                }
                i = i + 1;
            }
        },
    }
    assert(out@ =~= eligible(*ladder, allowed_view(&allowed), excluded@, closed@));
    out
}

// ── The candidate pipeline ───────────────────────────────────────────

/// The filter that drops candidate `fact`, in the order that decides which
/// counter the drop lands in: a candidate the KB negates, one it already
/// holds, one the one-step lookahead kills, one already seen this call.
pub open spec fn drop_of(kb: &FactBase, seen: Set<u32>, fact: u32, killed: bool) -> Option<Drop> {
    if kb.negated(fact) {
        Some(Drop::NegatedFact)
    } else if kb.held@[fact as int] {
        Some(Drop::FactAlreadyExists)
    } else if killed {
        Some(Drop::LookaheadKilled)
    } else if seen.contains(fact) {
        Some(Drop::SeenInCall)
    } else {
        None
    }
}

/// The candidate-level pipeline: the name of the filter that dropped
/// `fact`, or `None` for a keeper, which joins the call's seen set.
/// `killed` is the lookahead's verdict — false when it is off. A
/// lookahead kill is the caller's to cache as `(not h)` when the kill
/// cache is on.
pub fn apply_filters(
    kb: &FactBase,
    seen: &mut FxHashSet<u32>,
    stats: &mut HypGenStats,
    fact: u32,
    killed: bool,
) -> (d: Option<Drop>)
    requires
        kb.wf(),
        fact < kb.shapes@.len(),
        forall|i: int| 0 <= i < 4 ==> old(stats).filtered@[i] < u64::MAX,
    ensures
        d == drop_of(kb, old(seen)@, fact, killed),
        final(seen)@ == (if d is None {
            old(seen)@.insert(fact)
        } else {
            old(seen)@
        }),
        final(stats).filtered@ == (match d {
            Some(x) => old(stats).filtered@.update(x.slot() as int, (old(stats).filtered@[x.slot() as int] + 1) as u64),
            None => old(stats).filtered@,
        }),
        final(stats).raw == old(stats).raw,
        final(stats).emitted == old(stats).emitted,
        final(stats).pre_candidate == old(stats).pre_candidate,
        final(stats).rung == old(stats).rung,
{
    if crate::contradiction::is_negated(kb, fact) {
        stats.bump(Drop::NegatedFact);
        return Some(Drop::NegatedFact);
    }
    if kb.held[fact as usize] {
        stats.bump(Drop::FactAlreadyExists);
        return Some(Drop::FactAlreadyExists);
    }
    if killed {
        stats.bump(Drop::LookaheadKilled);
        return Some(Drop::LookaheadKilled);
    }
    if !insert_id(seen, fact) {
        assert(old(seen)@.insert(fact) =~= old(seen)@);
        stats.bump(Drop::SeenInCall);
        return Some(Drop::SeenInCall);
    }
    None
}

/// A `hyp` event's fields: the candidate, and the filter that dropped it
/// or `emitted`.
pub open spec fn hyp_fields(fact: Seq<char>, d: Option<Drop>) -> Seq<char> {
    with_key(with_key(seq!['{'], "fact"@) + json_str(fact), "verdict"@) + json_str(
        match d {
            Some(x) => x.name(),
            None => "emitted"@,
        },
    )
}

/// One candidate through the pipeline: count it, filter it, count a keeper,
/// and narrate the verdict when recording. Answers whether it is handed on,
/// and the event's text.
pub fn emit(
    events: &mut Events,
    tbl: &FactTable,
    kb: &FactBase,
    seen: &mut FxHashSet<u32>,
    stats: &mut HypGenStats,
    fact: u32,
    killed: bool,
) -> (r: (bool, Option<String>))
    requires
        kb.wf(),
        tbl.wf(),
        fact < kb.shapes@.len(),
        fact < tbl.rows@.len(),
        old(stats).raw < u64::MAX,
        old(stats).emitted < u64::MAX,
        forall|i: int| 0 <= i < 4 ==> old(stats).filtered@[i] < u64::MAX,
        old(events).count() < u64::MAX,
    ensures
        ({
            let d = drop_of(kb, old(seen)@, fact, killed);
            &&& r.0 == (d is None)
            &&& final(stats).raw == old(stats).raw + 1
            &&& final(stats).emitted == old(stats).emitted + if d is None {
                1int
            } else {
                0int
            }
            &&& final(stats).filtered@ == (match d {
                Some(x) => old(stats).filtered@.update(
                    x.slot() as int,
                    (old(stats).filtered@[x.slot() as int] + 1) as u64,
                ),
                None => old(stats).filtered@,
            })
            &&& final(seen)@ == (if d is None {
                old(seen)@.insert(fact)
            } else {
                old(seen)@
            })
            &&& old(events).is_on() ==> final(events).count() == old(events).count() + 1 && r.1 is Some
                && r.1->0@ == event_text("hyp"@, old(events).count(), hyp_fields(tbl.fact_text(fact as int), d))
            &&& !old(events).is_on() ==> final(events).count() == old(events).count() && r.1 is None
        }),
        final(events).is_on() == old(events).is_on(),
        final(events).level_of() == old(events).level_of(),
        final(stats).pre_candidate == old(stats).pre_candidate,
        final(stats).rung == old(stats).rung,
        balanced(*old(stats)) ==> balanced(*final(stats)),
{
    stats.raw = stats.raw + 1;
    let d = apply_filters(kb, seen, stats, fact, killed);
    if d.is_none() {
        stats.emitted = stats.emitted + 1;
    }
    let line = if events.on() {
        let text = sexpr(tbl, fact);
        let mut l = Line::new();
        l.str("fact", text.as_str());
        match d {
            Some(x) => l.str("verdict", x.as_str()),
            None => {
                proof {
                    reveal_strlit("emitted");
                }
                l.str("verdict", "emitted");
            },
        }
        events.emit("hyp", &l)
    } else {
        None
    };
    (d.is_none(), line)
}

// ── Blind enumeration ────────────────────────────────────────────────

/// One declared relation's standing in a generation call: its width, and
/// the pre-candidate skip it earns before a focal object is chosen.
#[derive(Clone, Copy, PartialEq, Eq, Debug)]
pub struct RelPlan {
    pub rel: u32,
    pub arity: usize,
    pub skip: Option<Skip>,
}

/// The relation walk: every declared relation with a signature, in
/// declaration order, with its scoping skip.
pub open spec fn rel_plans(
    declared: Seq<RelationDecl>,
    allowed: Option<Set<u32>>,
    excluded: Set<u32>,
    closed: Set<u32>,
) -> Seq<RelPlan>
    decreases declared.len(),
{
    if declared.len() == 0 {
        Seq::empty()
    } else {
        let prev = rel_plans(declared.drop_last(), allowed, excluded, closed);
        let r = declared.last();
        if r.arity != 0 {
            prev.push(RelPlan { rel: r.name, arity: r.arity, skip: scope_of(r.name, allowed, excluded, closed) })
        } else {
            prev
        }
    }
}

/// The relation walk, decided once per call.
pub fn relation_plan(
    declared: &[RelationDecl],
    allowed: &Option<FxHashSet<u32>>,
    excluded: &FxHashSet<u32>,
    closed: &FxHashSet<u32>,
) -> (r: Vec<RelPlan>)
    ensures
        r@ == rel_plans(declared@, allowed_view(allowed), excluded@, closed@),
{
    let mut out: Vec<RelPlan> = Vec::new();
    let mut i: usize = 0;
    while i < declared.len()
        invariant
            i <= declared@.len(),
            out@ == rel_plans(declared@.take(i as int), allowed_view(allowed), excluded@, closed@),
        decreases declared@.len() - i,
    {
        assert(declared@.take(i + 1).drop_last() =~= declared@.take(i as int));
        let r = declared[i];
        if r.arity != 0 {
            out.push(RelPlan { rel: r.name, arity: r.arity, skip: scoping(r.name, allowed, excluded, closed) });
        }
        i = i + 1;
    }
    assert(declared@.take(declared@.len() as int) =~= declared@);
    out
}

/// One step of the blind walk: a candidate `(rel first)` or `(rel first
/// second)`, or a skip counted against a relation.
#[derive(Clone, Copy, PartialEq, Eq, Debug)]
pub enum BlindStep {
    Candidate { rel: u32, first: u32, second: Option<u32> },
    Skipped { rel: u32, skip: Skip, object: Option<u32> },
}

/// Filling a binary relation's slot `slot` with `focal`, the others from
/// `objects` in order: a self-edge is skipped and counted.
pub open spec fn fill_pairs(rel: u32, slot: nat, focal: u32, objects: Seq<u32>) -> Seq<BlindStep>
    decreases objects.len(),
{
    if objects.len() == 0 {
        Seq::empty()
    } else {
        let filler = objects.last();
        fill_pairs(rel, slot, focal, objects.drop_last()).push(
            if filler == focal {
                BlindStep::Skipped { rel, skip: Skip::SelfEdge, object: Some(focal) }
            } else if slot == 0 {
                BlindStep::Candidate { rel, first: focal, second: Some(filler) }
            } else {
                BlindStep::Candidate { rel, first: filler, second: Some(focal) }
            },
        )
    }
}

/// One slot of one relation for `focal`: a unary relation's candidate is
/// `(rel focal)`; a binary one pairs `focal` with every other object;
/// wider relations are not enumerated.
pub open spec fn fill(rel: u32, arity: nat, slot: nat, focal: u32, objects: Seq<u32>) -> Seq<BlindStep> {
    if arity == 1 {
        seq![BlindStep::Candidate { rel, first: focal, second: None }]
    } else if arity == 2 {
        fill_pairs(rel, slot, focal, objects)
    } else {
        Seq::empty()
    }
}

/// The first `k` slots of a relation for `focal`.
pub open spec fn fill_slots(rel: u32, arity: nat, focal: u32, objects: Seq<u32>, k: nat) -> Seq<BlindStep>
    decreases k,
{
    if k == 0 {
        Seq::empty()
    } else {
        fill_slots(rel, arity, focal, objects, (k - 1) as nat) + fill(rel, arity, (k - 1) as nat, focal, objects)
    }
}

/// One relation for `focal`: its skip, or every slot in turn.
pub open spec fn for_relation(p: RelPlan, focal: u32, objects: Seq<u32>) -> Seq<BlindStep> {
    match p.skip {
        Some(sk) => seq![BlindStep::Skipped { rel: p.rel, skip: sk, object: None }],
        None => fill_slots(p.rel, p.arity as nat, focal, objects, p.arity as nat),
    }
}

/// Every relation for `focal`, in the walk's order.
pub open spec fn for_focal(plans: Seq<RelPlan>, focal: u32, objects: Seq<u32>) -> Seq<BlindStep>
    decreases plans.len(),
{
    if plans.len() == 0 {
        Seq::empty()
    } else {
        for_focal(plans.drop_last(), focal, objects) + for_relation(plans.last(), focal, objects)
    }
}

/// The blind enumerator's whole walk: focal object after focal object.
pub open spec fn blind_walk(plans: Seq<RelPlan>, focals: Seq<u32>, objects: Seq<u32>) -> Seq<BlindStep>
    decreases focals.len(),
{
    if focals.len() == 0 {
        Seq::empty()
    } else {
        blind_walk(plans, focals.drop_last(), objects) + for_focal(plans, focals.last(), objects)
    }
}

fn push_fill(out: &mut Vec<BlindStep>, rel: u32, arity: usize, slot: usize, focal: u32, objects: &[u32])
    ensures
        final(out)@ == old(out)@ + fill(rel, arity as nat, slot as nat, focal, objects@),
{
    if arity == 1 {
        out.push(BlindStep::Candidate { rel, first: focal, second: None });
        assert(final(out)@ =~= old(out)@ + fill(rel, arity as nat, slot as nat, focal, objects@));
        return;
    }
    if arity != 2 {
        assert(final(out)@ =~= old(out)@ + fill(rel, arity as nat, slot as nat, focal, objects@));
        return;
    }
    let ghost base = out@;
    let mut i: usize = 0;
    while i < objects.len()
        invariant
            i <= objects@.len(),
            out@ == base + fill_pairs(rel, slot as nat, focal, objects@.take(i as int)),
        decreases objects@.len() - i,
    {
        assert(objects@.take(i + 1).drop_last() =~= objects@.take(i as int));
        assert(objects@.take(i + 1).last() == objects@[i as int]);
        let filler = objects[i];
        let step = if filler == focal {
            BlindStep::Skipped { rel, skip: Skip::SelfEdge, object: Some(focal) }
        } else if slot == 0 {
            BlindStep::Candidate { rel, first: focal, second: Some(filler) }
        } else {
            BlindStep::Candidate { rel, first: filler, second: Some(focal) }
        };
        out.push(step);
        assert(out@ =~= base + fill_pairs(rel, slot as nat, focal, objects@.take(i + 1)));
        i = i + 1;
    }
    assert(objects@.take(objects@.len() as int) =~= objects@);
}

/// The blind enumerator's walk, in order: for each focal object — most
/// participating first — each relation of the plan, its skip or each of
/// its slots filled with the focal object and, for a binary relation, every
/// other object as the filler. The caller interns each candidate and runs
/// it through [`emit`], counting each skip; a stop from the search ends the
/// walk there.
pub fn blind_candidates(plans: &[RelPlan], focals: &[u32], objects: &[u32]) -> (r: Vec<BlindStep>)
    ensures
        r@ == blind_walk(plans@, focals@, objects@),
{
    let mut out: Vec<BlindStep> = Vec::new();
    let mut f: usize = 0;
    while f < focals.len()
        invariant
            f <= focals@.len(),
            out@ == blind_walk(plans@, focals@.take(f as int), objects@),
        decreases focals@.len() - f,
    {
        let focal = focals[f];
        let ghost base = out@;
        let mut p: usize = 0;
        while p < plans.len()
            invariant
                p <= plans@.len(),
                out@ == base + for_focal(plans@.take(p as int), focal, objects@),
            decreases plans@.len() - p,
        {
            let plan = plans[p];
            let ghost before = out@;
            match plan.skip {
                Some(sk) => {
                    out.push(BlindStep::Skipped { rel: plan.rel, skip: sk, object: None });
                    assert(out@ =~= before + for_relation(plan, focal, objects@));
                },
                None => {
                    let mut slot: usize = 0;
                    while slot < plan.arity
                        invariant
                            slot <= plan.arity,
                            out@ == before + fill_slots(plan.rel, plan.arity as nat, focal, objects@, slot as nat),
                        decreases plan.arity - slot,
                    {
                        let ghost mid = out@;
                        push_fill(&mut out, plan.rel, plan.arity, slot, focal, objects);
                        assert(out@ =~= before + fill_slots(
                            plan.rel,
                            plan.arity as nat,
                            focal,
                            objects@,
                            (slot + 1) as nat,
                        ));
                        slot = slot + 1;
                    }
                },
            }
            assert(plans@.take(p + 1).drop_last() =~= plans@.take(p as int));
            assert(plans@.take(p + 1).last() == plan);
            assert(out@ =~= base + for_focal(plans@.take(p + 1), focal, objects@));
            p = p + 1;
        }
        assert(plans@.take(plans@.len() as int) =~= plans@);
        assert(focals@.take(f + 1).drop_last() =~= focals@.take(f as int));
        assert(focals@.take(f + 1).last() == focal);
        f = f + 1;
    }
    assert(focals@.take(focals@.len() as int) =~= focals@);
    out
}

// ── The candidate objects and the focal order ────────────────────────

/// The names the enumerator may guess about, in the KB's order: each of
/// the `object` category that no signature declares as a type and that is
/// not a reserved logical primitive.
pub open spec fn kept_objects(names: Seq<(u32, bool)>, types: Set<u32>, reserved: Seq<u32>) -> Seq<u32>
    decreases names.len(),
{
    if names.len() == 0 {
        Seq::empty()
    } else {
        let prev = kept_objects(names.drop_last(), types, reserved);
        let (n, object) = names.last();
        if object && !types.contains(n) && !reserved.contains(n) {
            prev.push(n)
        } else {
            prev
        }
    }
}

/// The names' texts.
pub open spec fn name_texts(tbl: &FactTable, ids: Seq<u32>) -> Seq<Seq<char>> {
    ids.map_values(|n: u32| tbl.name(n))
}

fn texts_of(tbl: &FactTable, ids: &Vec<u32>) -> (r: Vec<String>)
    requires
        forall|k: int| 0 <= k < ids@.len() ==> (#[trigger] ids@[k]) < tbl.names@.len(),
    ensures
        texts(r@) == name_texts(tbl, ids@),
{
    let mut out: Vec<String> = Vec::new();
    let mut i: usize = 0;
    while i < ids.len()
        invariant
            forall|k: int| 0 <= k < ids@.len() ==> (#[trigger] ids@[k]) < tbl.names@.len(),
            i <= ids@.len(),
            texts(out@) == name_texts(tbl, ids@.take(i as int)),
        decreases ids@.len() - i,
    {
        let ghost before = texts(out@);
        out.push(crate::text::owned(tbl.names[ids[i] as usize].as_str()));
        assert(texts(out@) =~= before.push(tbl.name(ids@[i as int])));
        assert(name_texts(tbl, ids@.take(i + 1)) =~= name_texts(tbl, ids@.take(i as int)).push(tbl.name(ids@[i as int])));
        i = i + 1;
    }
    assert(ids@.take(ids@.len() as int) =~= ids@);
    out
}

/// The objects the enumerator may guess about, sorted by name: the names
/// of the `object` category (`names` pairs each with whether it is one),
/// less every name a relation signature declares as a type and the
/// reserved logical primitives.
pub fn candidate_objects(
    tbl: &FactTable,
    names: &[(u32, bool)],
    signatures: &[Vec<u32>],
    reserved: &[u32],
) -> (r: Vec<u32>)
    requires
        forall|k: int| 0 <= k < names@.len() ==> (#[trigger] names@[k]).0 < tbl.names@.len(),
    ensures
        exists|types: Set<u32>, order: Seq<int>|
            (forall|x: u32| #[trigger] types.contains(x) <==> exists|k: int|
                0 <= k < signatures@.len() && (#[trigger] signatures@[k])@.contains(x)) && #[trigger] text_order(
                name_texts(tbl, kept_objects(names@, types, reserved@)),
                order,
            ) && r@ == order.map_values(|t: int| kept_objects(names@, types, reserved@)[t]),
{
    let mut types = empty_set();
    let mut k: usize = 0;
    while k < signatures.len()
        invariant
            k <= signatures@.len(),
            forall|x: u32| #[trigger] types@.contains(x) <==> exists|q: int|
                0 <= q < k && (#[trigger] signatures@[q])@.contains(x),
        decreases signatures@.len() - k,
    {
        let ghost before = types@;
        crate::fxset::insert_all(&mut types, &signatures[k]);
        assert forall|x: u32| #[trigger] types@.contains(x) <==> exists|q: int|
            0 <= q < k + 1 && (#[trigger] signatures@[q])@.contains(x) by {
            if types@.contains(x) && !signatures@[k as int]@.contains(x) {
                assert(before.contains(x));
            }
        }
        k = k + 1;
    }
    let ghost ts = types@;
    let mut kept: Vec<u32> = Vec::new();
    let mut i: usize = 0;
    while i < names.len()
        invariant
            forall|k: int| 0 <= k < names@.len() ==> (#[trigger] names@[k]).0 < tbl.names@.len(),
            ts == types@,
            i <= names@.len(),
            kept@ == kept_objects(names@.take(i as int), ts, reserved@),
            forall|k: int| 0 <= k < kept@.len() ==> (#[trigger] kept@[k]) < tbl.names@.len(),
        decreases names@.len() - i,
    {
        assert(names@.take(i + 1).drop_last() =~= names@.take(i as int));
        assert(names@.take(i + 1).last() == names@[i as int]);
        let (n, object) = names[i];
        if object && !contains_id(&types, n) && !crate::mirror::contains_id_in(reserved, n) {
            kept.push(n);
        }
        i = i + 1;
    }
    assert(names@.take(names@.len() as int) =~= names@);
    let texts_kept = texts_of(tbl, &kept);
    let order = order_by_text(&texts_kept);
    let ghost ord = order@.map_values(|t: usize| t as int);
    let mut out: Vec<u32> = Vec::new();
    let mut j: usize = 0;
    while j < order.len()
        invariant
            ord == order@.map_values(|t: usize| t as int),
            text_order(texts(texts_kept@), ord),
            texts(texts_kept@).len() == kept@.len(),
            j <= order@.len(),
            out@ == ord.take(j as int).map_values(|t: int| kept@[t]),
        decreases order@.len() - j,
    {
        assert(ord[j as int] == order@[j as int] as int);
        let x = kept[order[j]];
        assert(ord.take(j + 1).map_values(|t: int| kept@[t]) =~= ord.take(j as int).map_values(|t: int| kept@[t]).push(
            x,
        ));
        out.push(x);
        j = j + 1;
    }
    assert(ord.take(ord.len() as int) =~= ord);
    assert(texts(texts_kept@) == name_texts(tbl, kept_objects(names@, ts, reserved@)));
    assert(text_order(name_texts(tbl, kept_objects(names@, ts, reserved@)), ord));
    out
}

/// Object `a` goes before `b` in the focal order: more participation, then
/// by name, then as given.
pub open spec fn part_before(ks: Seq<Seq<char>>, cs: Seq<usize>, a: int, b: int) -> bool {
    cs[a] > cs[b] || (cs[a] == cs[b] && text_before(ks, a, b))
}

/// `order` arranges the objects in the focal order.
pub open spec fn part_order(ks: Seq<Seq<char>>, cs: Seq<usize>, order: Seq<int>) -> bool {
    &&& order.len() == ks.len()
    &&& forall|t: int| 0 <= t < order.len() ==> 0 <= #[trigger] order[t] < ks.len()
    &&& order.no_duplicates()
    &&& forall|t: int, u: int| 0 <= t < u < order.len() ==> part_before(ks, cs, #[trigger] order[t], #[trigger] order[u])
}

proof fn lemma_part_trans(ks: Seq<Seq<char>>, cs: Seq<usize>, a: int, b: int, c: int)
    requires
        part_before(ks, cs, a, b),
        part_before(ks, cs, b, c),
    ensures
        part_before(ks, cs, a, c),
{
    if cs[a] == cs[b] && cs[b] == cs[c] {
        if text_less(ks[a], ks[b]) && text_less(ks[b], ks[c]) {
            lemma_text_trans(ks[a], ks[b], ks[c]);
        }
    }
}

proof fn lemma_part_total(ks: Seq<Seq<char>>, cs: Seq<usize>, a: int, b: int)
    requires
        a != b,
    ensures
        part_before(ks, cs, a, b) || part_before(ks, cs, b, a),
{
    if cs[a] == cs[b] && ks[a] != ks[b] {
        lemma_text_total(ks[a], ks[b]);
    }
}

proof fn lemma_part_irrefl(ks: Seq<Seq<char>>, cs: Seq<usize>, a: int)
    ensures
        !part_before(ks, cs, a, a),
{
    lemma_text_irrefl(ks[a]);
}

/// The focal order of `objects` given each one's participation.
fn participation_order(keys: &Vec<String>, counts: &[usize]) -> (order: Vec<usize>)
    requires
        counts@.len() == keys@.len(),
    ensures
        part_order(texts(keys@), counts@, order@.map_values(|t: usize| t as int)),
{
    let ghost ks = texts(keys@);
    let ghost cs = counts@;
    let mut order: Vec<usize> = Vec::new();
    let mut i: usize = 0;
    while i < keys.len()
        invariant
            ks == texts(keys@),
            cs == counts@,
            counts@.len() == keys@.len(),
            i <= keys@.len(),
            order@.len() == i,
            forall|t: int| 0 <= t < i ==> (#[trigger] order@[t]) < i,
            forall|t: int, u: int|
                0 <= t < u < i ==> part_before(ks, cs, #[trigger] order@[t] as int, #[trigger] order@[u] as int),
        decreases keys@.len() - i,
    {
        let mut p: usize = 0;
        while p < order.len() && !(counts[i] > counts[order[p]] || (counts[i] == counts[order[p]] && str_less(
            keys[i].as_str(),
            keys[order[p]].as_str(),
        )))
            invariant
                ks == texts(keys@),
                cs == counts@,
                counts@.len() == keys@.len(),
                i < keys@.len(),
                order@.len() == i,
                forall|t: int| 0 <= t < i ==> (#[trigger] order@[t]) < i,
                p <= order@.len(),
                forall|t: int| 0 <= t < p ==> !part_before(ks, cs, i as int, (#[trigger] order@[t]) as int),
            decreases order@.len() - p,
        {
            proof {
                let o = order@[p as int] as int;
                assert(!(ks[i as int] == ks[o] && (i as int) < o));
            }
            p = p + 1;
        }
        proof {
            if p < order@.len() {
                let o = order@[p as int] as int;
                assert(part_before(ks, cs, i as int, o));
            }
        }
        let ghost before = order@;
        order.insert(p, i);
        proof {
            assert forall|t: int| 0 <= t < i + 1 implies (#[trigger] order@[t]) < i + 1 by {
                if t < p {
                    assert(order@[t] == before[t]);
                } else if t > p {
                    assert(order@[t] == before[t - 1]);
                }
            }
            assert forall|t: int, u: int| 0 <= t < u < i + 1 implies part_before(
                ks,
                cs,
                #[trigger] order@[t] as int,
                #[trigger] order@[u] as int,
            ) by {
                if u < p {
                    assert(order@[t] == before[t] && order@[u] == before[u]);
                } else if u == p {
                    assert(order@[t] == before[t]);
                    assert(!part_before(ks, cs, i as int, before[t] as int));
                    lemma_part_total(ks, cs, i as int, before[t] as int);
                } else if t == p {
                    assert(order@[u] == before[u - 1]);
                    let b0 = before[p as int] as int;
                    assert(part_before(ks, cs, i as int, b0));
                    if u - 1 > p {
                        assert(part_before(ks, cs, b0, before[u - 1] as int));
                        lemma_part_trans(ks, cs, i as int, b0, before[u - 1] as int);
                    }
                } else if t < p {
                    assert(order@[t] == before[t] && order@[u] == before[u - 1]);
                    assert(part_before(ks, cs, before[t] as int, before[u - 1] as int));
                } else {
                    assert(order@[t] == before[t - 1] && order@[u] == before[u - 1]);
                    assert(part_before(ks, cs, before[t - 1] as int, before[u - 1] as int));
                }
            }
        }
        i = i + 1;
    }
    let ghost o = order@.map_values(|t: usize| t as int);
    proof {
        assert forall|t: int| 0 <= t < o.len() implies 0 <= #[trigger] o[t] < ks.len() by {
            assert(order@[t] < i);
        }
        assert forall|a: int, b: int| 0 <= a < o.len() && 0 <= b < o.len() && a != b implies o[a] != o[b] by {
            if a < b {
                assert(part_before(ks, cs, order@[a] as int, order@[b] as int));
            } else {
                assert(part_before(ks, cs, order@[b] as int, order@[a] as int));
            }
            if o[a] == o[b] {
                lemma_part_irrefl(ks, cs, o[a]);
            }
        }
        assert forall|t: int, u: int| 0 <= t < u < o.len() implies part_before(ks, cs, #[trigger] o[t], #[trigger] o[u]) by {
            assert(part_before(ks, cs, order@[t] as int, order@[u] as int));
        }
    }
    order
}

/// The focal order: descending fact participation — `counts[i]` is how
/// many facts name `objects[i]` — ties by name, stably.
pub fn by_participation(tbl: &FactTable, objects: &Vec<u32>, counts: &[usize]) -> (r: Vec<u32>)
    requires
        counts@.len() == objects@.len(),
        forall|k: int| 0 <= k < objects@.len() ==> (#[trigger] objects@[k]) < tbl.names@.len(),
    ensures
        exists|order: Seq<int>|
            #[trigger] part_order(name_texts(tbl, objects@), counts@, order) && r@ == order.map_values(
                |t: int| objects@[t],
            ),
{
    let keys = texts_of(tbl, objects);
    assert(texts(keys@).len() == keys@.len());
    assert(name_texts(tbl, objects@).len() == objects@.len());
    let order = participation_order(&keys, counts);
    let ghost ord = order@.map_values(|t: usize| t as int);
    let mut out: Vec<u32> = Vec::new();
    let mut j: usize = 0;
    while j < order.len()
        invariant
            ord == order@.map_values(|t: usize| t as int),
            part_order(texts(keys@), counts@, ord),
            texts(keys@).len() == objects@.len(),
            j <= order@.len(),
            out@ == ord.take(j as int).map_values(|t: int| objects@[t]),
        decreases order@.len() - j,
    {
        assert(ord[j as int] == order@[j as int] as int);
        let x = objects[order[j]];
        assert(ord.take(j + 1).map_values(|t: int| objects@[t]) =~= ord.take(j as int).map_values(
            |t: int| objects@[t],
        ).push(x));
        out.push(x);
        j = j + 1;
    }
    assert(ord.take(ord.len() as int) =~= ord);
    assert(part_order(name_texts(tbl, objects@), counts@, ord));
    out
}

/// Cache a lookahead-killed candidate `h` as `(not h)`, idempotently: the
/// id written, or `None` when the KB already holds it. The kill rests on
/// the saturated KB alone, so the write's provenance cites no premises —
/// the caller's to record.
pub fn write_negated(tbl: &mut FactTable, kb: &mut Vec<u32>, not: u32, h: u32) -> (r: Option<u32>)
    requires
        old(tbl).wf(),
        unique_rows(old(tbl)),
        old(tbl).rows@.len() < u32::MAX,
        not < old(tbl).names@.len(),
        h < old(tbl).rows@.len(),
        kb_ok(old(tbl), old(kb)@),
    ensures
        final(tbl).wf(),
        unique_rows(final(tbl)),
        kb_ok(final(tbl), final(kb)@),
        final(tbl).names@ == old(tbl).names@,
        final(tbl).rows@.take(old(tbl).rows@.len() as int) == old(tbl).rows@,
        match probe(old(tbl), not, seq![Arg::Fact(h)]) {
            Some(x) => old(kb)@.contains(x) ==> r is None && final(kb)@ == old(kb)@ && final(tbl).rows@
                == old(tbl).rows@,
            None => true,
        },
        r matches Some(id) ==> final(kb)@ == old(kb)@.push(id) && final(tbl).rows@[id as int].rel == not
            && final(tbl).rows@[id as int].args@ == seq![Arg::Fact(h)] && !old(kb)@.contains(id),
        r is None ==> (probe(old(tbl), not, seq![Arg::Fact(h)]) matches Some(x) && old(kb)@.contains(x)),
{
    let mut args: Vec<Arg> = Vec::new();
    args.push(Arg::Fact(h));
    assert(args@ =~= seq![Arg::Fact(h)]);
    match probe_fact(tbl, not, &args) {
        Some(x) => {
            if crate::mirror::holds_in(kb, x) {
                assert(tbl.rows@.take(tbl.rows@.len() as int) =~= tbl.rows@);
                return None;
            }
        },
        None => {},
    }
    let ghost n = tbl.rows@.len();
    proof {
        crate::facts::lemma_probe_found(tbl.rows@, not, seq![Arg::Fact(h)], 0);
    }
    let id = intern_fact(tbl, not, args);
    assert(!old(kb)@.contains(id)) by {
        if old(kb)@.contains(id) {
            let q = choose|q: int| 0 <= q < old(kb)@.len() && old(kb)@[q] == id;
            assert(old(kb)@[q] < n);
        }
    }
    kb.push(id);
    proof {
        assert forall|q: int| 0 <= q < kb@.len() implies (#[trigger] kb@[q]) < tbl.rows@.len() by {
            if q < old(kb)@.len() {
                assert(kb@[q] == old(kb)@[q]);
            }
        }
    }
    Some(id)
}

} // verus!
