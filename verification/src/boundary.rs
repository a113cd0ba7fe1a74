//! The saturator's negation boundary: when the positive closure quiesces,
//! the parked candidates — matches whose disjunct carries `(absent …)`
//! guards — are judged against the quiesced world, and at most one is
//! admitted.
//!
//! One admission per round is a soundness requirement: on `p ← absent q;
//! q ← absent p` both guards pass against the empty world, and admitting
//! both would derive a non-model. Candidates are judged in the engine's
//! (priority, FIFO) order and the first whose guards pass is admitted; a
//! candidate already fired by another route is dropped; one whose guard is
//! anti-monotone and found a match is retired, the KB only growing; any
//! other failure stays parked, a standing question.
//!
//! A guard's verdict can only move if a relation its query reads has
//! grown, so each round first advances the boundary's clock for every
//! guard set whose watched relations grew, and a candidate is re-judged
//! only when its set's epoch is past the epoch it last failed at.
use vstd::prelude::*;

use crate::events::{event_text, json_str, list, quoted_strings, with_key, Events, Line};
use crate::facts::FactTable;
use crate::text::{decimal, sort_strings, sorted_texts, texts};

verus! {

/// A guard's verdict for one candidate, in the quiesced world: every guard
/// passes, or the first that does not, with whether it is anti-monotone.
#[derive(Clone, Copy, PartialEq, Eq, Debug)]
pub enum Verdict {
    Pass,
    Fails { guard: usize, monotone: bool },
}

/// What a round did with one parked candidate.
#[derive(Clone, Copy, PartialEq, Eq, Debug)]
pub enum Decision {
    /// Fired by another route: dropped.
    Fired,
    /// Nothing it watches grew since it last failed: left as it was.
    Unchanged,
    /// Its guards pass: admitted to the firing queue.
    Admitted,
    /// An anti-monotone guard found a match: dead, retired.
    Retired,
    /// A guard failed: stays parked, stamped with this round's epoch.
    Parked,
}

/// A parked candidate's rank: `(priority, tiebreaker, entry)`.
pub open spec fn rank_less(a: (i64, u64, u32), b: (i64, u64, u32)) -> bool {
    a.0 < b.0 || (a.0 == b.0 && (a.1 < b.1 || (a.1 == b.1 && a.2 < b.2)))
}

/// The boundary's state.
pub struct Boundary {
    /// The parked candidates, in (priority, FIFO) order.
    pub parked: Vec<(i64, u64, u32)>,
    /// The clock: one tick per round.
    pub epoch: u32,
    /// Per entry: the epoch it last failed at, or 0 if never judged.
    pub judged_at: Vec<u32>,
    /// Per entry: its guard set.
    pub guard_set: Vec<u32>,
    /// Per guard set: the last epoch at which a relation it watches grew.
    pub gs_epoch: Vec<u32>,
    /// Per guard set: the watched relations it reads, as indices into
    /// `watched_sizes`.
    pub watches: Vec<Vec<u32>>,
    /// Each watched relation's extent size at the last round.
    pub watched_sizes: Vec<usize>,
    pub naf_rounds: u32,
    pub naf_admitted: u32,
    pub naf_retired: u32,
}

impl Boundary {
    /// The tables agree in size, every index is in range, and the parked
    /// set is strictly ordered by rank and parks each entry once.
    pub open spec fn wf(&self) -> bool {
        &&& self.judged_at@.len() == self.guard_set@.len()
        &&& self.gs_epoch@.len() == self.watches@.len()
        &&& forall|e: int| 0 <= e < self.guard_set@.len() ==> (#[trigger] self.guard_set@[e]) < self.gs_epoch@.len()
        &&& forall|g: int, i: int|
            0 <= g < self.watches@.len() && 0 <= i < self.watches@[g]@.len() ==> (#[trigger] self.watches@[g]@[i])
                < self.watched_sizes@.len()
        &&& forall|k: int| 0 <= k < self.parked@.len() ==> (#[trigger] self.parked@[k]).2 < self.judged_at@.len()
        &&& forall|i: int, j: int|
            0 <= i < j < self.parked@.len() ==> rank_less(#[trigger] self.parked@[i], #[trigger] self.parked@[j])
        &&& forall|i: int, j: int|
            0 <= i < j < self.parked@.len() ==> (#[trigger] self.parked@[i]).2 != (#[trigger] self.parked@[j]).2
    }

    /// Guard set `g` watches a relation whose size moved from `old` to `new`.
    pub open spec fn grew(&self, g: int, sizes: Seq<usize>) -> bool {
        exists|i: int|
            0 <= i < self.watches@[g]@.len() && sizes[#[trigger] self.watches@[g]@[i] as int]
                != self.watched_sizes@[self.watches@[g]@[i] as int]
    }
}

/// What a round reads of the boundary: the parked set, each entry's last
/// failure and guard set, and each guard set's epoch after the refresh.
pub struct Judging {
    pub parked: Seq<(i64, u64, u32)>,
    pub judged_at: Seq<u32>,
    pub guard_set: Seq<u32>,
    pub gs_epoch: Seq<u32>,
}

/// Entry `e` must be judged: never judged, or its guard set moved since it
/// last failed.
pub open spec fn stale(j: Judging, e: u32) -> bool {
    j.judged_at[e as int] == 0 || j.gs_epoch[j.guard_set[e as int] as int] > j.judged_at[e as int]
}

/// The decision a round makes for a candidate it reaches.
pub open spec fn decide(j: Judging, fired: Seq<bool>, verdicts: Seq<Verdict>, p: (i64, u64, u32)) -> Decision {
    if fired[p.2 as int] {
        Decision::Fired
    } else if !stale(j, p.2) {
        Decision::Unchanged
    } else {
        match verdicts[p.2 as int] {
            Verdict::Pass => Decision::Admitted,
            Verdict::Fails { guard: _, monotone } => if monotone {
                Decision::Retired
            } else {
                Decision::Parked
            },
        }
    }
}

/// The index of the first candidate from `i` on that is admitted, or the
/// number parked when none is.
pub open spec fn first_admitted(j: Judging, fired: Seq<bool>, verdicts: Seq<Verdict>, i: int) -> int
    decreases j.parked.len() - i,
{
    if i < 0 || i >= j.parked.len() {
        j.parked.len() as int
    } else if decide(j, fired, verdicts, j.parked[i]) == Decision::Admitted {
        i
    } else {
        first_admitted(j, fired, verdicts, i + 1)
    }
}

/// How many candidates the round reaches: up to and including the
/// admitted one.
pub open spec fn reached(j: Judging, fired: Seq<bool>, verdicts: Seq<Verdict>) -> int {
    let n = first_admitted(j, fired, verdicts, 0);
    if n < j.parked.len() {
        n + 1
    } else {
        n
    }
}

/// Candidate `k` stays parked after the round.
pub open spec fn stays(j: Judging, fired: Seq<bool>, verdicts: Seq<Verdict>, k: int) -> bool {
    k >= reached(j, fired, verdicts) || {
        let d = decide(j, fired, verdicts, j.parked[k]);
        d == Decision::Unchanged || d == Decision::Parked
    }
}

/// The parked candidates among the first `k` that stay.
pub open spec fn staying_upto(j: Judging, fired: Seq<bool>, verdicts: Seq<Verdict>, k: int) -> Seq<(i64, u64, u32)>
    decreases k,
{
    if k <= 0 {
        Seq::empty()
    } else {
        let prev = staying_upto(j, fired, verdicts, k - 1);
        if stays(j, fired, verdicts, k - 1) {
            prev.push(j.parked[k - 1])
        } else {
            prev
        }
    }
}

/// How many of the first `k` candidates the round retired.
pub open spec fn retired_upto(j: Judging, fired: Seq<bool>, verdicts: Seq<Verdict>, k: int) -> nat
    decreases k,
{
    if k <= 0 {
        0
    } else {
        retired_upto(j, fired, verdicts, k - 1) + if decide(j, fired, verdicts, j.parked[k - 1])
            == Decision::Retired {
            1nat
        } else {
            0nat
        }
    }
}

/// The round's outcome: the admitted candidate, if any, and the decision
/// for each candidate reached, with its tiebreaker.
pub struct Round {
    pub admitted: Option<(i64, u64, u32)>,
    pub decisions: Vec<(u64, Decision)>,
}

/// Advance the clock, and stamp it on every guard set a relation of which
/// grew since the last round; record the new sizes.
pub fn refresh_epochs(b: &mut Boundary, sizes: &[usize])
    requires
        old(b).wf(),
        sizes@.len() == old(b).watched_sizes@.len(),
        old(b).epoch < u32::MAX,
    ensures
        final(b).wf(),
        final(b).epoch == old(b).epoch + 1,
        final(b).watched_sizes@ == sizes@,
        final(b).gs_epoch@.len() == old(b).gs_epoch@.len(),
        forall|g: int|
            0 <= g < old(b).gs_epoch@.len() ==> #[trigger] final(b).gs_epoch@[g] == if old(b).grew(g, sizes@) {
                final(b).epoch
            } else {
                old(b).gs_epoch@[g]
            },
        final(b).parked@ == old(b).parked@,
        final(b).judged_at@ == old(b).judged_at@,
        final(b).guard_set@ == old(b).guard_set@,
        final(b).watches@ == old(b).watches@,
        final(b).naf_rounds == old(b).naf_rounds,
        final(b).naf_admitted == old(b).naf_admitted,
        final(b).naf_retired == old(b).naf_retired,
{
    b.epoch = b.epoch + 1;
    let ng = b.gs_epoch.len();
    let mut g: usize = 0;
    while g < ng
        invariant
            ng == b.gs_epoch@.len(),
            b.gs_epoch@.len() == old(b).gs_epoch@.len(),
            b.watches@ == old(b).watches@,
            b.watched_sizes@ == old(b).watched_sizes@,
            b.epoch == old(b).epoch + 1,
            old(b).wf(),
            sizes@.len() == old(b).watched_sizes@.len(),
            g <= ng,
            forall|h: int| 0 <= h < g ==> #[trigger] b.gs_epoch@[h] == if old(b).grew(h, sizes@) {
                b.epoch
            } else {
                old(b).gs_epoch@[h]
            },
            forall|h: int| g <= h < ng ==> #[trigger] b.gs_epoch@[h] == old(b).gs_epoch@[h],
            b.parked@ == old(b).parked@,
            b.judged_at@ == old(b).judged_at@,
            b.guard_set@ == old(b).guard_set@,
            b.naf_rounds == old(b).naf_rounds,
            b.naf_admitted == old(b).naf_admitted,
            b.naf_retired == old(b).naf_retired,
        decreases ng - g,
    {
        let w = &b.watches[g];
        let mut moved = false;
        let mut i: usize = 0;
        while i < w.len()
            invariant
                *w == old(b).watches@[g as int],
                b.watched_sizes@ == old(b).watched_sizes@,
                old(b).wf(),
                g < old(b).watches@.len(),
                sizes@.len() == old(b).watched_sizes@.len(),
                i <= w@.len(),
                moved == exists|j: int|
                    0 <= j < i && sizes@[#[trigger] w@[j] as int] != old(b).watched_sizes@[w@[j] as int],
            decreases w@.len() - i,
        {
            let at = w[i] as usize;
            assert(old(b).watches@[g as int]@[i as int] < old(b).watched_sizes@.len());
            if sizes[at] != b.watched_sizes[at] {
                moved = true;
            }
            i = i + 1;
        }
        if moved {
            let e = b.epoch;
            b.gs_epoch.set(g, e);
        }
        g = g + 1;
    }
    let ghost mid = b.gs_epoch@;
    let mut i: usize = 0;
    while i < sizes.len()
        invariant
            i <= sizes@.len(),
            sizes@.len() == b.watched_sizes@.len(),
            forall|j: int| 0 <= j < i ==> b.watched_sizes@[j] == sizes@[j],
            b.gs_epoch@ == mid,
            b.watches@ == old(b).watches@,
            b.epoch == old(b).epoch + 1,
            b.parked@ == old(b).parked@,
            b.judged_at@ == old(b).judged_at@,
            b.guard_set@ == old(b).guard_set@,
            b.naf_rounds == old(b).naf_rounds,
            b.naf_admitted == old(b).naf_admitted,
            b.naf_retired == old(b).naf_retired,
        decreases sizes@.len() - i,
    {
        b.watched_sizes.set(i, sizes[i]);
        i = i + 1;
    }
    assert(b.watched_sizes@ =~= sizes@);
}

/// What the round reads, once the clock has been refreshed.
pub open spec fn judging_of(parked: Seq<(i64, u64, u32)>, b: &Boundary) -> Judging {
    Judging { parked, judged_at: b.judged_at@, guard_set: b.guard_set@, gs_epoch: b.gs_epoch@ }
}

/// Entry `e` was stamped this round: a candidate the round reached that
/// failed a guard and stays parked.
pub open spec fn stamped(j: Judging, fired: Seq<bool>, verdicts: Seq<Verdict>, e: int) -> bool {
    exists|k: int|
        0 <= k < reached(j, fired, verdicts) && (#[trigger] j.parked[k]).2 == e && decide(j, fired, verdicts, j.parked[k])
            == Decision::Parked
}

proof fn lemma_first_admitted(j: Judging, fired: Seq<bool>, verdicts: Seq<Verdict>, i: int)
    requires
        0 <= i <= j.parked.len(),
    ensures
        i <= first_admitted(j, fired, verdicts, i) <= j.parked.len(),
        first_admitted(j, fired, verdicts, i) < j.parked.len() ==> decide(
            j,
            fired,
            verdicts,
            j.parked[first_admitted(j, fired, verdicts, i)],
        ) == Decision::Admitted,
        forall|k: int|
            i <= k < first_admitted(j, fired, verdicts, i) ==> decide(j, fired, verdicts, #[trigger] j.parked[k])
                != Decision::Admitted,
    decreases j.parked.len() - i,
{
    if i < j.parked.len() {
        lemma_first_admitted(j, fired, verdicts, i + 1);
    }
}

/// One boundary round: refresh the clock, then judge the parked
/// candidates in (priority, FIFO) order and admit the first whose guards
/// pass — at most one. A candidate fired by another route is dropped; one
/// whose guard set has not moved since it last failed is left alone; one
/// whose failing guard is anti-monotone is retired; any other failure is
/// stamped with this round's epoch and stays parked. The admitted
/// candidate leaves the parked set; the caller queues it. With nothing
/// parked the round does nothing.
pub fn admit_from_boundary(b: &mut Boundary, sizes: &[usize], fired: &[bool], verdicts: &[Verdict]) -> (r: Round)
    requires
        old(b).wf(),
        sizes@.len() == old(b).watched_sizes@.len(),
        fired@.len() == old(b).judged_at@.len(),
        verdicts@.len() == old(b).judged_at@.len(),
        old(b).parked@.len() > 0 ==> old(b).epoch < u32::MAX && old(b).naf_rounds < u32::MAX && old(b).naf_admitted
            < u32::MAX && old(b).naf_retired + old(b).parked@.len() <= u32::MAX,
    ensures
        final(b).wf(),
        old(b).parked@.len() == 0 ==> r.admitted is None && r.decisions@.len() == 0,
        old(b).parked@.len() == 0 ==> final(b).parked@ == old(b).parked@ && final(b).epoch == old(b).epoch,
        old(b).parked@.len() == 0 ==> final(b).gs_epoch@ == old(b).gs_epoch@ && final(b).judged_at@ == old(b).judged_at@,
        old(b).parked@.len() == 0 ==> final(b).watched_sizes@ == old(b).watched_sizes@,
        old(b).parked@.len() == 0 ==> final(b).naf_rounds == old(b).naf_rounds && final(b).naf_admitted == old(b).naf_admitted,
        old(b).parked@.len() == 0 ==> final(b).naf_retired == old(b).naf_retired,
        old(b).parked@.len() > 0 ==> {
            let j = Judging {
                parked: old(b).parked@,
                judged_at: old(b).judged_at@,
                guard_set: old(b).guard_set@,
                gs_epoch: final(b).gs_epoch@,
            };
            let n = first_admitted(j, fired@, verdicts@, 0);
            let lim = reached(j, fired@, verdicts@);
            &&& final(b).epoch == old(b).epoch + 1
            &&& final(b).watched_sizes@ == sizes@
            &&& final(b).gs_epoch@.len() == old(b).gs_epoch@.len()
            &&& forall|g: int|
                0 <= g < old(b).gs_epoch@.len() ==> #[trigger] final(b).gs_epoch@[g] == if old(b).grew(g, sizes@) {
                    final(b).epoch
                } else {
                    old(b).gs_epoch@[g]
                }
            &&& r.admitted == (if n < old(b).parked@.len() {
                Some(old(b).parked@[n])
            } else {
                None
            })
            &&& r.decisions@ == Seq::new(
                lim as nat,
                |k: int| (old(b).parked@[k].1, decide(j, fired@, verdicts@, old(b).parked@[k])),
            )
            &&& final(b).parked@ == staying_upto(j, fired@, verdicts@, old(b).parked@.len() as int)
            &&& final(b).judged_at@.len() == old(b).judged_at@.len()
            &&& forall|e: int|
                0 <= e < old(b).judged_at@.len() ==> #[trigger] final(b).judged_at@[e] == if stamped(
                    j,
                    fired@,
                    verdicts@,
                    e,
                ) {
                    final(b).epoch
                } else {
                    old(b).judged_at@[e]
                }
            &&& final(b).naf_rounds == old(b).naf_rounds + 1
            &&& final(b).naf_admitted == old(b).naf_admitted + if n < old(b).parked@.len() {
                1int
            } else {
                0int
            }
            &&& final(b).naf_retired == old(b).naf_retired + retired_upto(j, fired@, verdicts@, lim)
        },
        final(b).guard_set@ == old(b).guard_set@,
        final(b).watches@ == old(b).watches@,
{
    if b.parked.len() == 0 {
        return Round { admitted: None, decisions: Vec::new() };
    }
    b.naf_rounds = b.naf_rounds + 1;
    refresh_epochs(b, sizes);
    let ghost j = judging_of(old(b).parked@, b);
    let ghost jb = b.judged_at@;
    let ghost fa = first_admitted(j, fired@, verdicts@, 0);
    let ghost lim = reached(j, fired@, verdicts@);
    proof {
        lemma_first_admitted(j, fired@, verdicts@, 0);
    }
    let mut order: Vec<(i64, u64, u32)> = Vec::new();
    std::mem::swap(&mut order, &mut b.parked);
    let n = order.len();
    let mut keep: Vec<(i64, u64, u32)> = Vec::new();
    let ghost mut idx: Seq<int> = Seq::empty();
    let mut decisions: Vec<(u64, Decision)> = Vec::new();
    let mut admitted: Option<(i64, u64, u32)> = None;
    let mut k: usize = 0;
    while k < n
        invariant
            n == order@.len(),
            order@ == j.parked,
            j.judged_at == jb,
            j.guard_set == b.guard_set@,
            j.gs_epoch == b.gs_epoch@,
            fired@.len() == jb.len(),
            verdicts@.len() == jb.len(),
            b.judged_at@.len() == jb.len(),
            b.guard_set@.len() == jb.len(),
            forall|e: int| 0 <= e < b.guard_set@.len() ==> (#[trigger] b.guard_set@[e]) < b.gs_epoch@.len(),
            forall|q: int| 0 <= q < n ==> (#[trigger] j.parked[q]).2 < jb.len(),
            forall|q: int, t: int|
                0 <= q < t < n ==> (#[trigger] j.parked[q]).2 != (#[trigger] j.parked[t]).2 && rank_less(
                    j.parked[q],
                    j.parked[t],
                ),
            k <= n,
            fa == first_admitted(j, fired@, verdicts@, 0),
            lim == reached(j, fired@, verdicts@),
            0 <= fa <= n,
            fa < n ==> decide(j, fired@, verdicts@, j.parked[fa]) == Decision::Admitted,
            forall|q: int| 0 <= q < fa ==> decide(j, fired@, verdicts@, #[trigger] j.parked[q]) != Decision::Admitted,
            admitted == (if fa < k {
                Some(j.parked[fa])
            } else {
                None
            }),
            keep@ == staying_upto(j, fired@, verdicts@, k as int),
            keep@.len() == idx.len(),
            forall|t: int| 0 <= t < idx.len() ==> 0 <= #[trigger] idx[t] < k && keep@[t] == j.parked[idx[t]],
            forall|t: int, u: int| 0 <= t < u < idx.len() ==> #[trigger] idx[t] < #[trigger] idx[u],
            decisions@ == Seq::new(
                (if k < lim {
                    k as int
                } else {
                    lim
                }) as nat,
                |q: int| (j.parked[q].1, decide(j, fired@, verdicts@, j.parked[q])),
            ),
            forall|e: int|
                0 <= e < jb.len() ==> #[trigger] b.judged_at@[e] == if exists|q: int|
                    0 <= q < k && q < lim && (#[trigger] j.parked[q]).2 == e && decide(j, fired@, verdicts@, j.parked[q])
                        == Decision::Parked {
                    b.epoch
                } else {
                    jb[e]
                },
            b.naf_retired == old(b).naf_retired + retired_upto(
                j,
                fired@,
                verdicts@,
                if k < lim {
                    k as int
                } else {
                    lim
                },
            ),
            retired_upto(
                j,
                fired@,
                verdicts@,
                if k < lim {
                    k as int
                } else {
                    lim
                },
            ) <= k,
            b.naf_admitted == old(b).naf_admitted + if fa < k {
                1int
            } else {
                0int
            },
            old(b).naf_retired + n <= u32::MAX,
            old(b).naf_admitted < u32::MAX,
            old(b).wf(),
            sizes@.len() == old(b).watched_sizes@.len(),
            b.watches@ == old(b).watches@,
            b.watched_sizes@ == sizes@,
            b.epoch == old(b).epoch + 1,
            b.naf_rounds == old(b).naf_rounds + 1,
            b.gs_epoch@.len() == old(b).gs_epoch@.len(),
            jb == old(b).judged_at@,
            b.guard_set@ == old(b).guard_set@,
        decreases n - k,
    {
        let p = order[k];
        let e = p.2 as usize;
        assert(p == j.parked[k as int]);
        let ghost d = decide(j, fired@, verdicts@, j.parked[k as int]);
        let ghost before_keep = keep@;
        let ghost before_judged = b.judged_at@;
        let ghost kk = if k < lim {
            k as int
        } else {
            lim
        };
        if admitted.is_some() {
            // Past the admission: the rest stay as they are.
            keep.push(p);
            proof {
                idx = idx.push(k as int);
                assert(fa < k);
                assert(k as int >= lim);
                assert(stays(j, fired@, verdicts@, k as int));
                assert(staying_upto(j, fired@, verdicts@, k + 1) == keep@);
                assert forall|e: int| 0 <= e < jb.len() implies #[trigger] b.judged_at@[e] == if exists|q: int|
                    0 <= q < k + 1 && q < lim && (#[trigger] j.parked[q]).2 == e && decide(
                        j,
                        fired@,
                        verdicts@,
                        j.parked[q],
                    ) == Decision::Parked {
                    b.epoch
                } else {
                    jb[e]
                } by {}
            }
            k = k + 1;
            continue;
        }
        let dec = if fired[e] {
            Decision::Fired
        } else {
            let je = b.judged_at[e];
            let gs = b.guard_set[e] as usize;
            if je != 0 && b.gs_epoch[gs] <= je {
                Decision::Unchanged
            } else {
                match verdicts[e] {
                    Verdict::Pass => Decision::Admitted,
                    Verdict::Fails { guard: _, monotone } => if monotone {
                        Decision::Retired
                    } else {
                        Decision::Parked
                    },
                }
            }
        };
        assert(dec == d);
        assert(k as int <= fa);
        assert(k < lim);
        assert((dec == Decision::Admitted) == (fa == k as int));
        decisions.push((p.1, dec));
        match dec {
            Decision::Admitted => {
                admitted = Some(p);
                b.naf_admitted = b.naf_admitted + 1;
            },
            Decision::Retired => {
                b.naf_retired = b.naf_retired + 1;
            },
            Decision::Parked => {
                let ep = b.epoch;
                b.judged_at.set(e, ep);
                keep.push(p);
            },
            Decision::Unchanged => {
                keep.push(p);
            },
            Decision::Fired => {},
        }
        proof {
            if dec == Decision::Parked || dec == Decision::Unchanged {
                idx = idx.push(k as int);
            }
            assert(decisions@ =~= Seq::new(
                (k + 1) as nat,
                |q: int| (j.parked[q].1, decide(j, fired@, verdicts@, j.parked[q])),
            ));
            assert forall|e2: int| 0 <= e2 < jb.len() implies #[trigger] b.judged_at@[e2] == if exists|q: int|
                0 <= q < k + 1 && q < lim && (#[trigger] j.parked[q]).2 == e2 && decide(
                    j,
                    fired@,
                    verdicts@,
                    j.parked[q],
                ) == Decision::Parked {
                b.epoch
            } else {
                jb[e2]
            } by {
                if e2 == e as int {
                    if dec != Decision::Parked {
                        if exists|q: int|
                            0 <= q < k + 1 && q < lim && (#[trigger] j.parked[q]).2 == e2 && decide(
                                j,
                                fired@,
                                verdicts@,
                                j.parked[q],
                            ) == Decision::Parked {
                            let q = choose|q: int|
                                0 <= q < k + 1 && q < lim && (#[trigger] j.parked[q]).2 == e2 && decide(
                                    j,
                                    fired@,
                                    verdicts@,
                                    j.parked[q],
                                ) == Decision::Parked;
                            assert(q != k as int);
                        }
                    } else {
                        assert(j.parked[k as int].2 == e2);
                    }
                } else {
                    if exists|q: int|
                        0 <= q < k + 1 && q < lim && (#[trigger] j.parked[q]).2 == e2 && decide(
                            j,
                            fired@,
                            verdicts@,
                            j.parked[q],
                        ) == Decision::Parked {
                        let q = choose|q: int|
                            0 <= q < k + 1 && q < lim && (#[trigger] j.parked[q]).2 == e2 && decide(
                                j,
                                fired@,
                                verdicts@,
                                j.parked[q],
                            ) == Decision::Parked;
                        assert(q != k as int);
                    }
                }
            }
        }
        k = k + 1;
    }
    proof {
        assert forall|i: int, t: int| 0 <= i < t < keep@.len() implies rank_less(
            #[trigger] keep@[i],
            #[trigger] keep@[t],
        ) && keep@[i].2 != keep@[t].2 by {
            assert(idx[i] < idx[t]);
        }
        assert forall|e: int| 0 <= e < jb.len() implies #[trigger] b.judged_at@[e] == if stamped(
            j,
            fired@,
            verdicts@,
            e,
        ) {
            b.epoch
        } else {
            jb[e]
        } by {
            if stamped(j, fired@, verdicts@, e) {
                let q = choose|q: int|
                    0 <= q < lim && (#[trigger] j.parked[q]).2 == e && decide(j, fired@, verdicts@, j.parked[q])
                        == Decision::Parked;
                assert(q < n);
            }
        }
        assert forall|t: int| 0 <= t < keep@.len() implies (#[trigger] keep@[t]).2 < b.judged_at@.len() by {
            assert(keep@[t] == j.parked[idx[t]]);
        }
    }
    b.parked = keep;
    Round { admitted, decisions }
}

/// Park a new candidate in rank order.
pub fn park(b: &mut Boundary, key: (i64, u64, u32))
    requires
        old(b).wf(),
        key.2 < old(b).judged_at@.len(),
        forall|k: int| 0 <= k < old(b).parked@.len() ==> (#[trigger] old(b).parked@[k]).2 != key.2,
        forall|k: int| 0 <= k < old(b).parked@.len() ==> #[trigger] old(b).parked@[k] != key,
    ensures
        final(b).wf(),
        exists|i: int| 0 <= i <= old(b).parked@.len() && final(b).parked@ == old(b).parked@.insert(i, key),
        final(b).epoch == old(b).epoch,
        final(b).judged_at@ == old(b).judged_at@,
        final(b).guard_set@ == old(b).guard_set@,
        final(b).gs_epoch@ == old(b).gs_epoch@,
        final(b).watches@ == old(b).watches@,
        final(b).watched_sizes@ == old(b).watched_sizes@,
{
    let mut i: usize = 0;
    while i < b.parked.len() && rank_before(b.parked[i], key)
        invariant
            i <= b.parked@.len(),
            b.parked@ == old(b).parked@,
            forall|k: int| 0 <= k < i ==> rank_less(#[trigger] b.parked@[k], key),
        decreases b.parked@.len() - i,
    {
        i = i + 1;
    }
    proof {
        if i < b.parked@.len() {
            assert(!rank_less(b.parked@[i as int], key));
            assert(b.parked@[i as int] != key);
        }
    }
    b.parked.insert(i, key);
    proof {
        let q = b.parked@;
        let p0 = old(b).parked@;
        assert forall|x: int, y: int| 0 <= x < y < q.len() implies rank_less(#[trigger] q[x], #[trigger] q[y]) && q[x].2
            != q[y].2 by {
            if y < i {
                assert(q[x] == p0[x] && q[y] == p0[y]);
            } else if y == i {
                assert(q[x] == p0[x]);
            } else if x < i {
                assert(q[x] == p0[x] && q[y] == p0[y - 1]);
                assert(rank_less(p0[x], key));
                if i < p0.len() {
                    assert(!rank_less(p0[i as int], key));
                }
            } else if x == i {
                assert(q[y] == p0[y - 1]);
                assert(!rank_less(p0[i as int], key) && p0[i as int] != key);
                if y - 1 > i {
                    assert(rank_less(p0[i as int], p0[y - 1]));
                }
            } else {
                assert(q[x] == p0[x - 1] && q[y] == p0[y - 1]);
            }
        }
        assert forall|k: int| 0 <= k < q.len() implies (#[trigger] q[k]).2 < b.judged_at@.len() by {
            if k < i {
                assert(q[k] == p0[k]);
            } else if k > i {
                assert(q[k] == p0[k - 1]);
            }
        }
    }
}

/// `a` ranks before `b`.
fn rank_before(a: (i64, u64, u32), b: (i64, u64, u32)) -> (r: bool)
    ensures
        r == rank_less(a, b),
{
    a.0 < b.0 || (a.0 == b.0 && (a.1 < b.1 || (a.1 == b.1 && a.2 < b.2)))
}

// ── Narration ────────────────────────────────────────────────────────

/// The fields every boundary event carries: the candidate's tiebreaker,
/// the round and the rule.
pub open spec fn boundary_head(tiebreaker: u64, round: u32, rule: Seq<char>) -> Seq<char> {
    let a = with_key(seq!['{'], "tiebreaker"@) + decimal((tiebreaker as i64) as int);
    let b = with_key(a, "round"@) + decimal(round as int);
    with_key(b, "rule"@) + json_str(rule)
}

/// What a decision narrates: `admit`, or `retire` / `park` with the
/// failing guard's watched relations, sorted by name; nothing for a
/// dropped or unchanged candidate.
pub open spec fn decision_event(
    d: Decision,
    tiebreaker: u64,
    round: u32,
    rule: Seq<char>,
    watched: Seq<Seq<char>>,
) -> Option<(Seq<char>, Seq<char>)> {
    match d {
        Decision::Admitted => Some(("admit"@, boundary_head(tiebreaker, round, rule))),
        Decision::Retired => Some(
            ("retire"@, with_key(boundary_head(tiebreaker, round, rule), "watched"@) + list(
                sorted_texts(watched).map_values(|t: Seq<char>| json_str(t)),
            )),
        ),
        Decision::Parked => Some(
            ("park"@, with_key(boundary_head(tiebreaker, round, rule), "watched"@) + list(
                sorted_texts(watched).map_values(|t: Seq<char>| json_str(t)),
            )),
        ),
        _ => None,
    }
}

/// Narrate one decision of a round, when recording: `rule` is the
/// candidate's rule and `watched` the relations its failing guard reads.
pub fn narrate_decision(
    events: &mut Events,
    tbl: &FactTable,
    round: u32,
    tiebreaker: u64,
    rule: u32,
    d: Decision,
    watched: &[u32],
) -> (line: Option<String>)
    requires
        old(events).count() < u64::MAX,
        rule < tbl.names@.len(),
        forall|k: int| 0 <= k < watched@.len() ==> (#[trigger] watched@[k]) < tbl.names@.len(),
    ensures
        final(events).is_on() == old(events).is_on(),
        final(events).level_of() == old(events).level_of(),
        match decision_event(d, tiebreaker, round, tbl.name(rule), watched@.map_values(|w: u32| tbl.name(w))) {
            Some((kind, fields)) => old(events).is_on() ==> final(events).count() == old(events).count() + 1
                && line is Some && line->0@ == event_text(kind, old(events).count(), fields),
            None => final(events).count() == old(events).count() && line is None,
        },
        !old(events).is_on() ==> final(events).count() == old(events).count() && line is None,
{
    let (kind, with_watched) = match d {
        Decision::Admitted => ("admit", false),
        Decision::Retired => ("retire", true),
        Decision::Parked => ("park", true),
        _ => {
            return None;
        },
    };
    if !events.on() {
        return None;
    }
    let mut l = Line::new();
    l.num("tiebreaker", tiebreaker as i64);
    l.num("round", round as i64);
    l.str("rule", tbl.names[rule as usize].as_str());
    if with_watched {
        let mut names: Vec<String> = Vec::new();
        let mut i: usize = 0;
        while i < watched.len()
            invariant
                forall|k: int| 0 <= k < watched@.len() ==> (#[trigger] watched@[k]) < tbl.names@.len(),
                i <= watched@.len(),
                texts(names@) == watched@.take(i as int).map_values(|w: u32| tbl.name(w)),
            decreases watched@.len() - i,
        {
            let ghost before = texts(names@);
            names.push(crate::text::owned(tbl.names[watched[i] as usize].as_str()));
            assert(texts(names@) =~= before.push(tbl.name(watched@[i as int])));
            assert(watched@.take(i + 1).map_values(|w: u32| tbl.name(w)) =~= watched@.take(i as int).map_values(
                |w: u32| tbl.name(w),
            ).push(tbl.name(watched@[i as int])));
            i = i + 1;
        }
        assert(watched@.take(watched@.len() as int) =~= watched@);
        let sorted = sort_strings(&names);
        let ghost st = sorted@;
        l.owned_strs("watched", sorted);
        assert(quoted_strings(st) =~= texts(st).map_values(|t: Seq<char>| json_str(t)));
    }
    proof {
        reveal_strlit("admit");
        reveal_strlit("retire");
        reveal_strlit("park");
    }
    events.emit(kind, &l)
}

} // verus!
