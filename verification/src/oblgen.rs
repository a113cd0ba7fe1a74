//! The obligations rung — hypotheses from what a state still owes: which
//! rung a generation call took, what it reports, and the scoping that binds
//! it exactly as it binds the blind enumerator.
use vstd::prelude::*;

use rustc_hash::FxHashSet;

use crate::fxset::{contains_id, empty_set, insert_id};
use crate::events::{event_text, json_str, with_key, Events, Line};
use crate::text::decimal;
use crate::hypgen::Skip;

verus! {

/// Which rung of the generation ladder a call took.
#[derive(Clone, Copy, PartialEq, Eq, Debug)]
pub enum Mode {
    /// No obligation rule is loaded — the blind enumerator.
    Blind,
    /// A `(hrule …)` overrides the ladder.
    Hrules,
    /// The rung generated: every owed obligation's candidates, deduped.
    Obligations,
    /// Owed, and nothing may be branched on — the ladder's dead end.
    Stuck,
    /// An obligation was declined, so the call fell through to the blind
    /// enumerator.
    Declined,
}

impl Mode {
    pub open spec fn name(self) -> Seq<char> {
        match self {
            Mode::Blind => seq!['b', 'l', 'i', 'n', 'd'],
            Mode::Hrules => seq!['h', 'r', 'u', 'l', 'e', 's'],
            Mode::Obligations => seq!['o', 'b', 'l', 'i', 'g', 'a', 't', 'i', 'o', 'n', 's'],
            Mode::Stuck => seq!['s', 't', 'u', 'c', 'k'],
            Mode::Declined => seq!['d', 'e', 'c', 'l', 'i', 'n', 'e', 'd'],
        }
    }

    pub fn as_str(self) -> (s: &'static str)
        ensures
            s@ == self.name(),
    {
        match self {
            Mode::Blind => {
                proof {
                    reveal_strlit("blind");
                }
                "blind"
            },
            Mode::Hrules => {
                proof {
                    reveal_strlit("hrules");
                }
                "hrules"
            },
            Mode::Obligations => {
                proof {
                    reveal_strlit("obligations");
                }
                "obligations"
            },
            Mode::Stuck => {
                proof {
                    reveal_strlit("stuck");
                }
                "stuck"
            },
            Mode::Declined => {
                proof {
                    reveal_strlit("declined");
                }
                "declined"
            },
        }
    }
}

impl Default for Mode {
    fn default() -> (m: Mode)
        ensures
            m == Mode::Blind,
    {
        Mode::Blind
    }
}

/// What one generation call did with the obligations it found. Zero
/// everywhere, and `Blind`, for a program that declares none.
#[derive(Clone, Copy, PartialEq, Eq, Debug)]
pub struct RungReport {
    pub mode: Mode,
    /// Undischarged obligation instances at this quiescence.
    pub owed: u64,
    /// …of which branched on.
    pub branches: u64,
    /// …of which not, because scoping excludes the relation they owe.
    pub declined: u64,
    /// Candidate facts proposed, before the filter pipeline.
    pub candidates: u64,
    /// Hypothesis-eligible relations no obligation names.
    pub uncovered: u64,
}

impl RungReport {
    pub open spec fn zero() -> RungReport {
        RungReport { mode: Mode::Blind, owed: 0, branches: 0, declined: 0, candidates: 0, uncovered: 0 }
    }

    pub fn new() -> (r: RungReport)
        ensures
            r == RungReport::zero(),
    {
        RungReport { mode: Mode::Blind, owed: 0, branches: 0, declined: 0, candidates: 0, uncovered: 0 }
    }
}

impl Default for RungReport {
    fn default() -> (r: RungReport)
        ensures
            r == RungReport::zero(),
    {
        RungReport::new()
    }
}

/// The order the owed instances are walked in.
#[derive(Clone, Copy, PartialEq, Eq, Debug)]
pub enum Choice {
    /// Report order — priority, then load order, then activator, then match.
    RuleOrder,
    /// Smallest candidate set first.
    FailFirst,
    /// Branch on none of them: the rung declines every call.
    Off,
}

impl Choice {
    pub open spec fn name(self) -> Seq<char> {
        match self {
            Choice::RuleOrder => seq!['r', 'u', 'l', 'e', '-', 'o', 'r', 'd', 'e', 'r'],
            Choice::FailFirst => seq!['f', 'a', 'i', 'l', '-', 'f', 'i', 'r', 's', 't'],
            Choice::Off => seq!['o', 'f', 'f'],
        }
    }

    /// The setting an `EIN_OBLIGATION_CHOICE` value selects; anything else,
    /// and no value at all, is rule order.
    pub open spec fn of_setting(v: Option<Seq<char>>) -> Choice {
        match v {
            Some(s) => if s == Choice::FailFirst.name() {
                Choice::FailFirst
            } else if s == Choice::Off.name() {
                Choice::Off
            } else {
                Choice::RuleOrder
            },
            None => Choice::RuleOrder,
        }
    }

    /// The choice an `EIN_OBLIGATION_CHOICE` value selects.
    pub fn from_setting(v: Option<&str>) -> (c: Choice)
        ensures
            c == Choice::of_setting(match v {
                Some(s) => Some(s@),
                None => None,
            }),
    {
        match v {
            Some(s) => {
                proof {
                    reveal_strlit("fail-first");
                    reveal_strlit("off");
                    assert("fail-first"@ =~= Choice::FailFirst.name());
                    assert("off"@ =~= Choice::Off.name());
                }
                if crate::text::str_eq(s, "fail-first") {
                    Choice::FailFirst
                } else if crate::text::str_eq(s, "off") {
                    Choice::Off
                } else {
                    Choice::RuleOrder
                }
            },
            None => Choice::RuleOrder,
        }
    }

    pub fn as_str(self) -> (s: &'static str)
        ensures
            s@ == self.name(),
    {
        match self {
            Choice::RuleOrder => {
                proof {
                    reveal_strlit("rule-order");
                }
                "rule-order"
            },
            Choice::FailFirst => {
                proof {
                    reveal_strlit("fail-first");
                }
                "fail-first"
            },
            Choice::Off => {
                proof {
                    reveal_strlit("off");
                }
                "off"
            },
        }
    }
}

/// The pre-candidate skip scoping earns a relation, tested in the order that
/// decides which counter a skip lands in: closed, then not whitelisted, then
/// excluded.
pub open spec fn scope_of(
    rel: u32,
    allowed: Option<Set<u32>>,
    excluded: Set<u32>,
    closed: Set<u32>,
) -> Option<Skip> {
    if closed.contains(rel) {
        Some(Skip::ClosedRelation)
    } else if allowed is Some && !allowed->0.contains(rel) {
        Some(Skip::RelationNotWhitelisted)
    } else if excluded.contains(rel) {
        Some(Skip::NoHypothesisRelation)
    } else {
        None
    }
}

/// A relation is in scope exactly when it is not closed, not on the
/// `:no-hypothesis` list, and on the whitelist if there is one: a relation
/// the program excludes is never hypothesised, whatever the whitelist says.
pub proof fn lemma_scope_of_excludes(rel: u32, allowed: Option<Set<u32>>, excluded: Set<u32>, closed: Set<u32>)
    ensures
        excluded.contains(rel) ==> scope_of(rel, allowed, excluded, closed) is Some,
        closed.contains(rel) ==> scope_of(rel, allowed, excluded, closed) == Some(Skip::ClosedRelation),
        (allowed matches Some(a) && !a.contains(rel)) ==> scope_of(rel, allowed, excluded, closed) is Some,
        scope_of(rel, allowed, excluded, closed) is None <==> !closed.contains(rel) && !excluded.contains(rel) && (match allowed {
            Some(a) => a.contains(rel),
            None => true,
        }),
        scope_of(rel, allowed, excluded, closed) == Some(Skip::NoHypothesisRelation) ==> excluded.contains(rel),
{
}

pub open spec fn allowed_view(allowed: &Option<FxHashSet<u32>>) -> Option<Set<u32>> {
    match allowed {
        Some(a) => Some(a@),
        None => None,
    }
}

/// The three pre-candidate relation skips, in the order the blind
/// enumerator applies them.
pub fn scoping(
    rel: u32,
    allowed: &Option<FxHashSet<u32>>,
    excluded: &FxHashSet<u32>,
    closed: &FxHashSet<u32>,
) -> (s: Option<Skip>)
    ensures
        s == scope_of(rel, allowed_view(allowed), excluded@, closed@),
        closed@.contains(rel) ==> s == Some(Skip::ClosedRelation),
        excluded@.contains(rel) ==> s is Some,
        (match allowed {
            Some(a) => !a@.contains(rel),
            None => false,
        }) ==> s is Some,
        s is None <==> !closed@.contains(rel) && !excluded@.contains(rel) && (match allowed {
            Some(a) => a@.contains(rel),
            None => true,
        }),
        s == Some(Skip::NoHypothesisRelation) ==> excluded@.contains(rel),
{
    proof {
        lemma_scope_of_excludes(rel, allowed_view(allowed), excluded@, closed@);
    }
    if contains_id(closed, rel) {
        Some(Skip::ClosedRelation)
    } else if match allowed {
        Some(a) => !contains_id(a, rel),
        None => false,
    } {
        Some(Skip::RelationNotWhitelisted)
    } else if contains_id(excluded, rel) {
        Some(Skip::NoHypothesisRelation)
    } else {
        None
    }
}

/// A declared relation: its name and its signature's width.
#[derive(Clone, Copy, PartialEq, Eq, Debug)]
pub struct RelationDecl {
    pub name: u32,
    pub arity: usize,
}

/// Is this relation one a hypothesis could be about that no obligation
/// names?
pub open spec fn is_uncovered(
    r: RelationDecl,
    allowed: Option<Set<u32>>,
    excluded: Set<u32>,
    closed: Set<u32>,
    owed: Set<u32>,
) -> bool {
    r.arity != 0 && !owed.contains(r.name) && scope_of(r.name, allowed, excluded, closed) is None
}

/// How many of `rels` are uncovered.
pub open spec fn count_uncovered(
    rels: Seq<RelationDecl>,
    allowed: Option<Set<u32>>,
    excluded: Set<u32>,
    closed: Set<u32>,
    owed: Set<u32>,
) -> nat
    decreases rels.len(),
{
    if rels.len() == 0 {
        0
    } else {
        count_uncovered(rels.drop_last(), allowed, excluded, closed, owed) + (if is_uncovered(
            rels.last(),
            allowed,
            excluded,
            closed,
            owed,
        ) {
            1nat
        } else {
            0nat
        })
    }
}

/// How many hypothesis-eligible relations no obligation names — the
/// ladder's completeness condition, as a number. The same eligibility test
/// the blind enumerator applies, so a relation it would skip is not counted.
pub fn uncovered_relations(
    relations: &[RelationDecl],
    allowed: &Option<FxHashSet<u32>>,
    excluded: &FxHashSet<u32>,
    closed: &FxHashSet<u32>,
    owed: &FxHashSet<u32>,
) -> (n: u64)
    ensures
        n == count_uncovered(relations@, allowed_view(allowed), excluded@, closed@, owed@),
{
    let mut n: u64 = 0;
    let mut i: usize = 0;
    while i < relations.len()
        invariant
            i <= relations@.len(),
            n == count_uncovered(
                relations@.take(i as int),
                allowed_view(allowed),
                excluded@,
                closed@,
                owed@,
            ),
            n <= i,
        decreases relations@.len() - i,
    {
        let r = relations[i];
        assert(relations@.take(i + 1).drop_last() =~= relations@.take(i as int));
        if r.arity != 0 && !contains_id(owed, r.name) && scoping(
            r.name,
            allowed,
            excluded,
            closed,
        ).is_none() {
            n = n + 1;
        }
        i = i + 1;
    }
    assert(relations@.take(relations@.len() as int) =~= relations@);
    n
}


// ── The rung's decisions ─────────────────────────────────────────────

/// Why a call fell through to the blind enumerator.
#[derive(Clone, Copy, PartialEq, Eq, Debug)]
pub enum Decline {
    /// `EIN_OBLIGATION_CHOICE=off`: the rung declines every call.
    Off,
    /// A bare `(open)` names no relation to branch on.
    BareOpen,
    /// A projection did not resolve for its activator.
    Unresolved,
    /// An obligation scans this relation, which the rung itself proposes —
    /// the candidate set could grow underneath the branch.
    Scans(u32),
}

/// One `(rule, activator)` obligation plan, as the rung reads it at this
/// quiescence.
pub struct Obligation {
    /// `(open ?R)`'s argument; `None` for a bare `(open)`.
    pub relation: Option<u32>,
    /// Whether every disjunct's witness step resolved for this activator.
    pub resolves: bool,
    /// The relations its guards and premises scan, the witness step itself
    /// excluded, in the order the stability check visits them.
    pub scans: Vec<u32>,
    /// Each undischarged instance: the facts that would discharge it.
    pub owed: Vec<Vec<u32>>,
}

/// A scoped-out obligation: the relation it owes, the skip scoping earns
/// it, and how many instances were not branched on.
#[derive(Clone, Copy, PartialEq, Eq, Debug)]
pub struct ScopedOut {
    pub relation: u32,
    pub skip: Skip,
    pub instances: u64,
}

/// What the rung decided before anything was emitted.
pub struct RungPlan {
    /// `Declined` with every count zero, or `Obligations` with the counts.
    pub report: RungReport,
    /// Why the call fell through, when it did.
    pub decline: Option<Decline>,
    /// The obligations scoping excluded, in plan order.
    pub scoped_out: Vec<ScopedOut>,
    /// Every branched instance's candidates, in walk order.
    pub branches: Vec<Vec<u32>>,
}

/// The first obligation from `k` on that cannot be projected.
pub open spec fn unprojected_from(obs: Seq<Obligation>, k: int) -> Option<Decline>
    decreases obs.len() - k,
{
    if k < 0 || k >= obs.len() {
        None
    } else if obs[k].relation is None {
        Some(Decline::BareOpen)
    } else if !obs[k].resolves {
        Some(Decline::Unresolved)
    } else {
        unprojected_from(obs, k + 1)
    }
}

/// The relations the obligations owe.
pub open spec fn owed_relations(obs: Seq<Obligation>) -> Set<u32> {
    Set::new(|r: u32| exists|k: int| 0 <= k < obs.len() && (#[trigger] obs[k]).relation == Some(r))
}

/// The first relation of `scans` from `i` on that `owed` holds.
pub open spec fn scanned_from(scans: Seq<u32>, owed: Set<u32>, i: int) -> Option<u32>
    decreases scans.len() - i,
{
    if i < 0 || i >= scans.len() {
        None
    } else if owed.contains(scans[i]) {
        Some(scans[i])
    } else {
        scanned_from(scans, owed, i + 1)
    }
}

/// The first owed relation an obligation from `k` on scans.
pub open spec fn scanning_from(obs: Seq<Obligation>, owed: Set<u32>, k: int) -> Option<u32>
    decreases obs.len() - k,
{
    if k < 0 || k >= obs.len() {
        None
    } else {
        match scanned_from(obs[k].scans@, owed, 0) {
            Some(r) => Some(r),
            None => scanning_from(obs, owed, k + 1),
        }
    }
}

/// Whether, and why, the rung declines the call: the choice turns it off;
/// an obligation cannot be projected; or one scans what the rung proposes.
pub open spec fn decline_of(obs: Seq<Obligation>, choice: Choice) -> Option<Decline> {
    if choice == Choice::Off {
        Some(Decline::Off)
    } else {
        match unprojected_from(obs, 0) {
            Some(d) => Some(d),
            None => match scanning_from(obs, owed_relations(obs), 0) {
                Some(r) => Some(Decline::Scans(r)),
                None => None,
            },
        }
    }
}

/// The skip scoping earns an obligation's relation.
pub open spec fn skip_of(o: Obligation, allowed: Option<Set<u32>>, excluded: Set<u32>, closed: Set<u32>) -> Option<Skip> {
    scope_of(o.relation->0, allowed, excluded, closed)
}

/// The instances the first `k` obligations owe.
pub open spec fn owed_upto(obs: Seq<Obligation>, k: int) -> nat
    decreases k,
{
    if k <= 0 || k > obs.len() {
        0
    } else {
        owed_upto(obs, k - 1) + obs[k - 1].owed@.len()
    }
}

/// The scoped-out obligations among the first `k`.
pub open spec fn scoped_upto(
    obs: Seq<Obligation>,
    k: int,
    allowed: Option<Set<u32>>,
    excluded: Set<u32>,
    closed: Set<u32>,
) -> Seq<ScopedOut>
    decreases k,
{
    if k <= 0 || k > obs.len() {
        Seq::empty()
    } else {
        let prev = scoped_upto(obs, k - 1, allowed, excluded, closed);
        match skip_of(obs[k - 1], allowed, excluded, closed) {
            Some(skip) => prev.push(
                ScopedOut { relation: obs[k - 1].relation->0, skip, instances: obs[k - 1].owed@.len() as u64 },
            ),
            None => prev,
        }
    }
}

/// The branched instances' candidates among the first `k` obligations, in
/// report order.
pub open spec fn branches_upto(
    obs: Seq<Obligation>,
    k: int,
    allowed: Option<Set<u32>>,
    excluded: Set<u32>,
    closed: Set<u32>,
) -> Seq<Seq<u32>>
    decreases k,
{
    if k <= 0 || k > obs.len() {
        Seq::empty()
    } else {
        let prev = branches_upto(obs, k - 1, allowed, excluded, closed);
        match skip_of(obs[k - 1], allowed, excluded, closed) {
            Some(_) => prev,
            None => prev + obs[k - 1].owed@.map_values(|v: Vec<u32>| v@),
        }
    }
}

/// How many instances were scoped out.
pub open spec fn scoped_count(so: Seq<ScopedOut>) -> nat
    decreases so.len(),
{
    if so.len() == 0 {
        0
    } else {
        scoped_count(so.drop_last()) + so.last().instances as nat
    }
}

/// How many candidates the branches propose.
pub open spec fn total_len(bs: Seq<Seq<u32>>) -> nat
    decreases bs.len(),
{
    if bs.len() == 0 {
        0
    } else {
        total_len(bs.drop_last()) + bs.last().len()
    }
}

/// Every obligation's instances and candidates together.
pub open spec fn obligation_size(obs: Seq<Obligation>, k: int) -> nat
    decreases k,
{
    if k <= 0 || k > obs.len() {
        0
    } else {
        obligation_size(obs, k - 1) + obs[k - 1].owed@.len() + total_len(
            obs[k - 1].owed@.map_values(|v: Vec<u32>| v@),
        )
    }
}

/// Instance `a` walks before instance `b` under fail-first: fewer
/// candidates first, report order among equals.
pub open spec fn walks_before(bs: Seq<Seq<u32>>, a: int, b: int) -> bool {
    bs[a].len() < bs[b].len() || (bs[a].len() == bs[b].len() && a < b)
}

/// `order` is the order the instances `bs` are walked in: report order,
/// or under fail-first the stable sort by candidate count.
pub open spec fn walk_order(bs: Seq<Seq<u32>>, choice: Choice, order: Seq<int>) -> bool {
    &&& order.len() == bs.len()
    &&& forall|t: int| 0 <= t < order.len() ==> 0 <= #[trigger] order[t] < bs.len()
    &&& order.no_duplicates()
    &&& choice == Choice::FailFirst ==> forall|t: int, u: int|
        0 <= t < u < order.len() ==> walks_before(bs, #[trigger] order[t], #[trigger] order[u])
    &&& choice != Choice::FailFirst ==> forall|t: int| 0 <= t < order.len() ==> #[trigger] order[t] == t
}

/// The report of a declined call: nothing counted.
pub open spec fn declined_report() -> RungReport {
    RungReport { mode: Mode::Declined, ..RungReport::zero() }
}

fn copy_ids(v: &Vec<u32>) -> (r: Vec<u32>)
    ensures
        r@ == v@,
{
    let mut out: Vec<u32> = Vec::new();
    let mut i: usize = 0;
    while i < v.len()
        invariant
            i <= v@.len(),
            out@ == v@.take(i as int),
        decreases v@.len() - i,
    {
        out.push(v[i]);
        assert(v@.take(i + 1) =~= v@.take(i as int).push(v@[i as int]));
        i = i + 1;
    }
    assert(v@.take(v@.len() as int) =~= v@);
    out
}

/// The first relation of `scans` that `owed` holds.
fn first_scanned(scans: &Vec<u32>, owed: &FxHashSet<u32>) -> (r: Option<u32>)
    ensures
        r == scanned_from(scans@, owed@, 0),
{
    let mut i: usize = 0;
    while i < scans.len()
        invariant
            i <= scans@.len(),
            scanned_from(scans@, owed@, 0) == scanned_from(scans@, owed@, i as int),
        decreases scans@.len() - i,
    {
        if contains_id(owed, scans[i]) {
            return Some(scans[i]);
        }
        i = i + 1;
    }
    None
}

/// The walk order of `bs`: report order, or fail-first's stable sort by
/// candidate count.
fn order_walk(bs: &Vec<Vec<u32>>, choice: Choice) -> (order: Vec<usize>)
    ensures
        walk_order(bs@.map_values(|v: Vec<u32>| v@), choice, order@.map_values(|t: usize| t as int)),
{
    let ghost vs = bs@.map_values(|v: Vec<u32>| v@);
    let mut order: Vec<usize> = Vec::new();
    let mut i: usize = 0;
    let fail_first = match choice {
        Choice::FailFirst => true,
        _ => false,
    };
    if !fail_first {
        while i < bs.len()
            invariant
                i <= bs@.len(),
                order@.len() == i,
                forall|t: int| 0 <= t < i ==> order@[t] == t,
            decreases bs@.len() - i,
        {
            order.push(i);
            i = i + 1;
        }
        proof {
            let o = order@.map_values(|t: usize| t as int);
            assert forall|t: int| 0 <= t < o.len() implies #[trigger] o[t] == t by {
                assert(order@[t] == t);
            }
            assert forall|t: int| 0 <= t < o.len() implies 0 <= #[trigger] o[t] < vs.len() by {
                assert(o[t] == t);
            }
            assert forall|a: int, b: int| 0 <= a < o.len() && 0 <= b < o.len() && a != b implies o[a] != o[b] by {
                assert(o[a] == a && o[b] == b);
            }
            assert(o.len() == vs.len());
            assert(o.no_duplicates());
            assert(walk_order(vs, choice, o));
        }
        return order;
    }
    while i < bs.len()
        invariant
            vs == bs@.map_values(|v: Vec<u32>| v@),
            i <= bs@.len(),
            order@.len() == i,
            forall|t: int| 0 <= t < i ==> (#[trigger] order@[t]) < i,
            forall|t: int, u: int| 0 <= t < u < i ==> walks_before(vs, #[trigger] order@[t] as int, #[trigger] order@[u] as int),
        decreases bs@.len() - i,
    {
        let w = bs[i].len();
        // Insert after every instance no wider: those all came first.
        let mut p: usize = 0;
        while p < order.len() && bs[order[p]].len() <= w
            invariant
                vs == bs@.map_values(|v: Vec<u32>| v@),
                i < bs@.len(),
                w == vs[i as int].len(),
                order@.len() == i,
                forall|t: int| 0 <= t < i ==> (#[trigger] order@[t]) < i,
                p <= order@.len(),
                forall|t: int| 0 <= t < p ==> vs[(#[trigger] order@[t]) as int].len() <= w,
            decreases order@.len() - p,
        {
            p = p + 1;
        }
        let ghost before = order@;
        order.insert(p, i);
        proof {
            assert forall|t: int| 0 <= t < i + 1 implies (#[trigger] order@[t]) < i + 1 by {
                if t < p {
                    assert(order@[t] == before[t]);
                } else if t > p {
                    assert(order@[t] == before[t - 1]);
                }
            }
            assert forall|t: int, u: int| 0 <= t < u < i + 1 implies walks_before(vs, #[trigger] order@[t] as int, #[trigger] order@[u] as int) by {
                if u < p {
                    assert(order@[t] == before[t] && order@[u] == before[u]);
                } else if u == p {
                    assert(order@[t] == before[t]);
                    assert(before[t] < i);
                } else if t == p {
                    assert(order@[u] == before[u - 1]);
                    if u - 1 < p {
                        assert(false);
                    }
                    if vs[before[u - 1] as int].len() <= w {
                        // Everything at or past `p` is wider, by sortedness.
                        if p < before.len() {
                            assert(vs[before[p as int] as int].len() > w);
                            if u - 1 > p {
                                assert(walks_before(vs, before[p as int] as int, before[u - 1] as int));
                            }
                        }
                    }
                } else if t < p {
                    assert(order@[t] == before[t] && order@[u] == before[u - 1]);
                    if t < u - 1 {
                        assert(walks_before(vs, before[t] as int, before[u - 1] as int));
                    } else {
                        assert(false);
                    }
                } else {
                    assert(order@[t] == before[t - 1] && order@[u] == before[u - 1]);
                    assert(walks_before(vs, before[t - 1] as int, before[u - 1] as int));
                }
            }
        }
        i = i + 1;
    }
    proof {
        let o = order@.map_values(|t: usize| t as int);
        assert forall|t: int| 0 <= t < o.len() implies 0 <= #[trigger] o[t] < vs.len() by {
            assert(order@[t] < i);
        }
        assert forall|a: int, b: int| 0 <= a < o.len() && 0 <= b < o.len() && a != b implies o[a] != o[b] by {
            if a < b {
                assert(walks_before(vs, order@[a] as int, order@[b] as int));
            } else {
                assert(walks_before(vs, order@[b] as int, order@[a] as int));
            }
        }
        assert forall|t: int, u: int| 0 <= t < u < o.len() implies walks_before(vs, #[trigger] o[t], #[trigger] o[u]) by {
            assert(walks_before(vs, order@[t] as int, order@[u] as int));
        }
        assert(o.len() == vs.len());
        assert(o.no_duplicates());
        assert(walk_order(vs, choice, o));
    }
    order
}


fn declined_plan(d: Decline) -> (plan: RungPlan)
    ensures
        plan.decline == Some(d),
        plan.report == declined_report(),
        plan.scoped_out@.len() == 0,
        plan.branches@.len() == 0,
{
    let mut report = RungReport::new();
    report.mode = Mode::Declined;
    RungPlan { report, decline: Some(d), scoped_out: Vec::new(), branches: Vec::new() }
}

proof fn lemma_unprojected_step(obs: Seq<Obligation>, k: int)
    requires
        0 <= k < obs.len(),
        obs[k].relation is Some,
        obs[k].resolves,
    ensures
        unprojected_from(obs, k) == unprojected_from(obs, k + 1),
{
}

proof fn lemma_sizes_step(obs: Seq<Obligation>, k: int)
    requires
        0 <= k < obs.len(),
    ensures
        obligation_size(obs, k) + obs[k].owed@.len() + total_len(obs[k].owed@.map_values(|v: Vec<u32>| v@))
            == obligation_size(obs, k + 1),
        obligation_size(obs, k) <= obligation_size(obs, k + 1),
{
}

proof fn lemma_size_mono(obs: Seq<Obligation>, k: int, n: int)
    requires
        0 <= k <= n <= obs.len(),
    ensures
        obligation_size(obs, k) <= obligation_size(obs, n),
    decreases n - k,
{
    if k < n {
        lemma_sizes_step(obs, n - 1);
        lemma_size_mono(obs, k, n - 1);
    }
}

proof fn lemma_total_len_append(a: Seq<Seq<u32>>, b: Seq<Seq<u32>>)
    ensures
        total_len(a + b) == total_len(a) + total_len(b),
    decreases b.len(),
{
    if b.len() > 0 {
        assert((a + b).drop_last() =~= a + b.drop_last());
        lemma_total_len_append(a, b.drop_last());
    } else {
        assert(a + b =~= a);
    }
}

proof fn lemma_scoped_count_bound(obs: Seq<Obligation>, k: int, allowed: Option<Set<u32>>, excluded: Set<u32>, closed: Set<u32>)
    requires
        0 <= k <= obs.len(),
        obligation_size(obs, k) <= u64::MAX,
    ensures
        scoped_count(scoped_upto(obs, k, allowed, excluded, closed)) + branches_upto(obs, k, allowed, excluded, closed).len()
            == owed_upto(obs, k),
        total_len(branches_upto(obs, k, allowed, excluded, closed)) + owed_upto(obs, k) <= obligation_size(obs, k),
    decreases k,
{
    if k > 0 {
        lemma_sizes_step(obs, k - 1);
        lemma_scoped_count_bound(obs, k - 1, allowed, excluded, closed);
        let prev = scoped_upto(obs, k - 1, allowed, excluded, closed);
        let bprev = branches_upto(obs, k - 1, allowed, excluded, closed);
        let inst = obs[k - 1].owed@.map_values(|v: Vec<u32>| v@);
        match skip_of(obs[k - 1], allowed, excluded, closed) {
            Some(skip) => {
                let so = ScopedOut { relation: obs[k - 1].relation->0, skip, instances: obs[k - 1].owed@.len() as u64 };
                assert(prev.push(so).drop_last() =~= prev);
            },
            None => {
                lemma_total_len_append(bprev, inst);
            },
        }
    }
}

/// The rung's decision for the obligations `obs` at this quiescence,
/// before anything is emitted: decline — and the caller falls through to
/// the blind enumerator — or count the owed instances, set aside those
/// scoping excludes, and hand back every other instance's candidates in
/// walk order.
pub fn plan_rung(
    obs: &Vec<Obligation>,
    relations: &[RelationDecl],
    allowed: &Option<FxHashSet<u32>>,
    excluded: &FxHashSet<u32>,
    closed: &FxHashSet<u32>,
    choice: Choice,
) -> (plan: RungPlan)
    requires
        obligation_size(obs@, obs@.len() as int) <= u64::MAX,
    ensures
        plan.decline == decline_of(obs@, choice),
        plan.decline is Some ==> plan.report == declined_report() && plan.scoped_out@.len() == 0
            && plan.branches@.len() == 0,
        plan.decline is None ==> ({
            let a = allowed_view(allowed);
            let bs = branches_upto(obs@, obs@.len() as int, a, excluded@, closed@);
            let so = scoped_upto(obs@, obs@.len() as int, a, excluded@, closed@);
            &&& plan.report.mode == Mode::Obligations
            &&& plan.report.owed == owed_upto(obs@, obs@.len() as int)
            &&& plan.report.declined == scoped_count(so)
            &&& plan.report.branches == bs.len()
            &&& plan.report.candidates == total_len(bs)
            &&& plan.report.uncovered == count_uncovered(relations@, a, excluded@, closed@, owed_relations(obs@))
            &&& plan.report.owed == plan.report.branches + plan.report.declined
            &&& plan.scoped_out@ == so
            &&& exists|order: Seq<int>| #[trigger] walk_order(bs, choice, order)
                && plan.branches@.map_values(|v: Vec<u32>| v@) == order.map_values(|t: int| bs[t])
        }),
{
    let ghost os = obs@;
    let ghost n = obs@.len();
    if let Choice::Off = choice {
        return declined_plan(Decline::Off);
    }
    let mut owed = empty_set();
    let mut k: usize = 0;
    while k < obs.len()
        invariant
            os == obs@,
            n == os.len(),
            k <= n,
            unprojected_from(os, 0) == unprojected_from(os, k as int),
            choice != Choice::Off,
            forall|q: int| 0 <= q < k ==> (#[trigger] os[q]).relation is Some,
            forall|r: u32| owed@.contains(r) <==> exists|q: int| 0 <= q < k && (#[trigger] os[q]).relation == Some(r),
        decreases n - k,
    {
        let o = &obs[k];
        match o.relation {
            None => {
                return declined_plan(Decline::BareOpen);
            },
            Some(rel) => {
                if !o.resolves {
                    return declined_plan(Decline::Unresolved);
                }
                proof {
                    lemma_unprojected_step(os, k as int);
                }
                insert_id(&mut owed, rel);
                proof {
                    assert forall|r: u32| owed@.contains(r) <==> exists|q: int| 0 <= q < k + 1 && (#[trigger] os[q]).relation == Some(r) by {
                        if r == rel {
                            assert(os[k as int].relation == Some(r));
                        }
                        if exists|q: int| 0 <= q < k + 1 && (#[trigger] os[q]).relation == Some(r) {
                            let q = choose|q: int| 0 <= q < k + 1 && (#[trigger] os[q]).relation == Some(r);
                            if q < k {
                                assert(exists|q: int| 0 <= q < k && (#[trigger] os[q]).relation == Some(r));
                            }
                        }
                    }
                }
            },
        }
        k = k + 1;
    }
    proof {
        assert(owed@ =~= owed_relations(os));
    }
    let mut k: usize = 0;
    while k < obs.len()
        invariant
            os == obs@,
            n == os.len(),
            k <= n,
            owed@ == owed_relations(os),
            scanning_from(os, owed@, 0) == scanning_from(os, owed@, k as int),
            unprojected_from(os, 0) is None,
            choice != Choice::Off,
            forall|q: int| 0 <= q < n ==> (#[trigger] os[q]).relation is Some,
        decreases n - k,
    {
        match first_scanned(&obs[k].scans, &owed) {
            Some(r) => {
                assert(scanning_from(os, owed@, k as int) == Some(r));
                return declined_plan(Decline::Scans(r));
            },
            None => {},
        }
        k = k + 1;
    }
    let uncovered = uncovered_relations(relations, allowed, excluded, closed, &owed);
    let ghost a = allowed_view(allowed);
    let mut report = RungReport::new();
    report.mode = Mode::Obligations;
    report.uncovered = uncovered;
    let mut scoped_out: Vec<ScopedOut> = Vec::new();
    let mut bs: Vec<Vec<u32>> = Vec::new();
    let mut k: usize = 0;
    while k < obs.len()
        invariant
            os == obs@,
            n == os.len(),
            k <= n,
            unprojected_from(os, 0) is None,
            forall|q: int| 0 <= q < n ==> (#[trigger] os[q]).relation is Some,
            obligation_size(os, n as int) <= u64::MAX,
            a == allowed_view(allowed),
            report.mode == Mode::Obligations,
            report.uncovered == uncovered,
            report.owed == owed_upto(os, k as int),
            report.declined == scoped_count(scoped_upto(os, k as int, a, excluded@, closed@)),
            report.branches == branches_upto(os, k as int, a, excluded@, closed@).len(),
            report.candidates == total_len(branches_upto(os, k as int, a, excluded@, closed@)),
            scoped_out@ == scoped_upto(os, k as int, a, excluded@, closed@),
            bs@.map_values(|v: Vec<u32>| v@) == branches_upto(os, k as int, a, excluded@, closed@),
        decreases n - k,
    {
        let o = &obs[k];
        let rel = match o.relation {
            Some(r) => r,
            None => {
                proof {
                    assert(os[k as int].relation is Some);
                }
                0
            },
        };
        proof {
            lemma_size_mono(os, k + 1, n as int);
            lemma_scoped_count_bound(os, k + 1, a, excluded@, closed@);
            lemma_sizes_step(os, k as int);
        }
        let cnt = o.owed.len() as u64;
        let ghost inst = o.owed@.map_values(|v: Vec<u32>| v@);
        report.owed = report.owed + cnt;
        let sk = scoping(rel, allowed, excluded, closed);
        assert(sk == skip_of(os[k as int], a, excluded@, closed@));
        match sk {
            Some(skip) => {
                proof {
                    let so = ScopedOut { relation: rel, skip, instances: cnt };
                    assert(scoped_upto(os, k + 1, a, excluded@, closed@) == scoped_upto(os, k as int, a, excluded@, closed@).push(so));
                    assert(scoped_upto(os, k + 1, a, excluded@, closed@).drop_last() =~= scoped_upto(os, k as int, a, excluded@, closed@));
                    assert(branches_upto(os, k + 1, a, excluded@, closed@) == branches_upto(os, k as int, a, excluded@, closed@));
                }
                report.declined = report.declined + cnt;
                let ghost before = scoped_out@;
                scoped_out.push(ScopedOut { relation: rel, skip, instances: cnt });
                proof {
                    assert(scoped_out@ =~= before.push(ScopedOut { relation: rel, skip, instances: cnt }));
                    assert(scoped_out@.drop_last() =~= before);
                }
            },
            None => {
                let ghost bprev = bs@.map_values(|v: Vec<u32>| v@);
                proof {
                    assert(branches_upto(os, k + 1, a, excluded@, closed@) == bprev + inst);
                    lemma_total_len_append(bprev, inst);
                    assert(scoped_upto(os, k + 1, a, excluded@, closed@) == scoped_upto(os, k as int, a, excluded@, closed@));
                }
                report.branches = report.branches + cnt;
                let ghost r0 = report;
                let mut j: usize = 0;
                while j < o.owed.len()
                    invariant
                        j <= o.owed@.len(),
                        inst == o.owed@.map_values(|v: Vec<u32>| v@),
                        bs@.map_values(|v: Vec<u32>| v@) == bprev + inst.take(j as int),
                        report.candidates == total_len(bprev) + total_len(inst.take(j as int)),
                        total_len(bprev) + total_len(inst) <= u64::MAX,
                        report == (RungReport { candidates: report.candidates, ..r0 }),
                    decreases o.owed@.len() - j,
                {
                    proof {
                        assert(inst.take(j + 1).drop_last() =~= inst.take(j as int));
                        lemma_total_len_append(inst.take(j + 1), inst.skip(j + 1));
                        assert(inst.take(j + 1) + inst.skip(j + 1) =~= inst);
                    }
                    let c = copy_ids(&o.owed[j]);
                    report.candidates = report.candidates + c.len() as u64;
                    let ghost before = bs@;
                    bs.push(c);
                    proof {
                        assert(bs@.map_values(|v: Vec<u32>| v@) =~= before.map_values(|v: Vec<u32>| v@).push(inst[j as int]));
                        assert(bprev + inst.take(j + 1) =~= (bprev + inst.take(j as int)).push(inst[j as int]));
                    }
                    j = j + 1;
                }
                proof {
                    assert(inst.take(inst.len() as int) =~= inst);
                    lemma_total_len_append(bprev, inst);
                }
            },
        }
        k = k + 1;
    }
    let order = order_walk(&bs, choice);
    let ghost vs = bs@.map_values(|v: Vec<u32>| v@);
    let ghost o = order@.map_values(|t: usize| t as int);
    let mut branches: Vec<Vec<u32>> = Vec::new();
    let mut t: usize = 0;
    while t < order.len()
        invariant
            vs == bs@.map_values(|v: Vec<u32>| v@),
            o == order@.map_values(|t: usize| t as int),
            walk_order(vs, choice, o),
            t <= order@.len(),
            branches@.map_values(|v: Vec<u32>| v@) == o.take(t as int).map_values(|q: int| vs[q]),
        decreases order@.len() - t,
    {
        assert(0 <= o[t as int] < vs.len());
        let c = copy_ids(&bs[order[t]]);
        let ghost before = branches@;
        branches.push(c);
        proof {
            assert(branches@.map_values(|v: Vec<u32>| v@) =~= before.map_values(|v: Vec<u32>| v@).push(vs[o[t as int]]));
            assert(o.take(t + 1).map_values(|q: int| vs[q]) =~= o.take(t as int).map_values(|q: int| vs[q]).push(vs[o[t as int]]));
        }
        t = t + 1;
    }
    proof {
        assert(o.take(o.len() as int) =~= o);
        assert(branches@.map_values(|v: Vec<u32>| v@) == o.map_values(|q: int| vs[q]));
        assert(walk_order(vs, choice, o));
        lemma_scoped_count_bound(obs@, obs@.len() as int, allowed_view(allowed), excluded@, closed@);
    }
    RungPlan { report, decline: None, scoped_out, branches }
}

/// The mode a call ends in once its candidates have been offered: owed,
/// with nothing stopping the walk and nothing surviving the filters, is
/// stuck — the generator proposes nothing, and the caller would otherwise
/// call the state complete.
pub open spec fn settled(r: RungReport, broke: bool, emitted_before: u64, emitted_after: u64) -> RungReport {
    if r.owed > 0 && !broke && emitted_after == emitted_before {
        RungReport { mode: Mode::Stuck, ..r }
    } else {
        r
    }
}

/// Settle a call's report after the walk: `broke` says the emitter stopped
/// it, and the two counts are the filter pipeline's `emitted` around it.
pub fn settle(r: RungReport, broke: bool, emitted_before: u64, emitted_after: u64) -> (s: RungReport)
    ensures
        s == settled(r, broke, emitted_before, emitted_after),
{
    let mut s = r;
    if r.owed > 0 && !broke && emitted_after == emitted_before {
        s.mode = Mode::Stuck;
    }
    s
}


// ── Narration ────────────────────────────────────────────────────────

impl Decline {
    /// The reason a `rung` event gives for the fall-through; `name` is the
    /// scanned relation's name.
    pub open spec fn reason_text(self, name: Seq<char>) -> Seq<char> {
        match self {
            Decline::Off => "EIN_OBLIGATION_CHOICE=off"@,
            Decline::BareOpen => "a bare `(open)` names no relation to branch on"@,
            Decline::Unresolved => "a projection did not resolve per activator"@,
            Decline::Scans(_) => "an obligation scans `"@ + name + "`, which the rung itself proposes"@,
        }
    }

    pub fn reason(self, name: &str) -> (r: String)
        ensures
            r@ == self.reason_text(name@),
    {
        let mut out = String::new();
        match self {
            Decline::Off => out.append("EIN_OBLIGATION_CHOICE=off"),
            Decline::BareOpen => out.append("a bare `(open)` names no relation to branch on"),
            Decline::Unresolved => out.append("a projection did not resolve per activator"),
            Decline::Scans(_) => {
                out.append("an obligation scans `");
                out.append(name);
                out.append("`, which the rung itself proposes");
            },
        }
        out
    }
}

/// A `rung` event's fields: the mode, the reason — the walk order, or why
/// the call fell through — and the counts.
pub open spec fn rung_fields(r: RungReport, reason: Seq<char>) -> Seq<char> {
    let l1 = with_key(seq!['{'], "mode"@) + json_str(r.mode.name());
    let l2 = with_key(l1, "reason"@) + json_str(reason);
    let l3 = with_key(l2, "owed"@) + decimal((r.owed as i64) as int);
    let l4 = with_key(l3, "branches"@) + decimal((r.branches as i64) as int);
    let l5 = with_key(l4, "declined"@) + decimal((r.declined as i64) as int);
    let l6 = with_key(l5, "candidates"@) + decimal((r.candidates as i64) as int);
    with_key(l6, "uncovered"@) + decimal((r.uncovered as i64) as int)
}

/// Narrate one call's rung: the `rung` event, when recording. A declined
/// call narrates the declined report with its reason; any other, the
/// report with its walk order.
pub fn narrate(events: &mut Events, r: &RungReport, reason: &str) -> (line: Option<String>)
    requires
        old(events).count() < u64::MAX,
    ensures
        final(events).is_on() == old(events).is_on(),
        final(events).level_of() == old(events).level_of(),
        old(events).is_on() ==> final(events).count() == old(events).count() + 1 && line is Some
            && line->0@ == event_text("rung"@, old(events).count(), rung_fields(*r, reason@)),
        !old(events).is_on() ==> final(events).count() == old(events).count() && line is None,
{
    if !events.on() {
        return None;
    }
    let mut l = Line::new();
    l.str("mode", r.mode.as_str());
    l.str("reason", reason);
    l.num("owed", r.owed as i64);
    l.num("branches", r.branches as i64);
    l.num("declined", r.declined as i64);
    l.num("candidates", r.candidates as i64);
    l.num("uncovered", r.uncovered as i64);
    events.emit("rung", &l)
}

/// A `hypskip` event's fields: the relation, and why scoping skipped it.
pub open spec fn hypskip_fields(relation: Seq<char>, skip: Skip) -> Seq<char> {
    with_key(with_key(seq!['{'], "relation"@) + json_str(relation), "reason"@) + json_str(skip.name())
}

/// Narrate a scoped-out relation: a `hypskip` event, recorded at the
/// verbose level only.
pub fn hypskip(events: &mut Events, relation: &str, skip: Skip) -> (line: Option<String>)
    requires
        old(events).count() < u64::MAX,
    ensures
        final(events).is_on() == old(events).is_on(),
        final(events).level_of() == old(events).level_of(),
        old(events).is_on() && old(events).level_of() == crate::events::Level::Verbose ==> final(events).count()
            == old(events).count() + 1 && line is Some && line->0@ == event_text(
            "hypskip"@,
            old(events).count(),
            hypskip_fields(relation@, skip),
        ),
        !(old(events).is_on() && old(events).level_of() == crate::events::Level::Verbose) ==> final(events).count()
            == old(events).count() && line is None,
{
    if !(events.on() && events.verbose()) {
        return None;
    }
    let mut l = Line::new();
    l.str("relation", relation);
    l.str("reason", skip.as_str());
    events.emit("hypskip", &l)
}

} // verus!
