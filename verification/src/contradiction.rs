//! Contradiction detection — the two shapes, and the incremental check.
//!
//! 1. **pair** — an `(X, (not X))` pair: a rule asserted `(not X)` and `X`
//!    is also in the KB.
//! 2. **direct** — a `(false)` fact: a rule asserted contradiction outright.
//!
//! How a fact got into the KB is irrelevant: a KB holding both `X` and
//! `(not X)` is inconsistent whatever layer either came from, so every such
//! pair is reported. The result order is direct ⊥ first, then pairs in
//! extent order, because it reaches the unsat core and the trace.
use vstd::prelude::*;

verus! {

#[derive(Clone, Copy, PartialEq, Eq, Debug)]
pub enum Kind {
    Pair,
    Direct,
}

impl Kind {
    pub open spec fn name(self) -> Seq<char> {
        match self {
            Kind::Pair => seq!['p', 'a', 'i', 'r'],
            Kind::Direct => seq!['d', 'i', 'r', 'e', 'c', 't'],
        }
    }

    pub fn as_str(self) -> (s: &'static str)
        ensures
            s@ == self.name(),
    {
        match self {
            Kind::Pair => {
                proof {
                    reveal_strlit("pair");
                }
                "pair"
            },
            Kind::Direct => {
                proof {
                    reveal_strlit("direct");
                }
                "direct"
            },
        }
    }
}

#[derive(Clone, Copy, PartialEq, Eq, Debug)]
pub struct Contradiction {
    /// The `X` fact, or `None` for a direct ⊥.
    pub positive: Option<u32>,
    /// The `(not X)` wrapper, or the `(false …)` fact itself.
    pub negative: u32,
    pub kind: Kind,
}

impl Contradiction {
    /// The fact whose derivation seeds the unsat-core walk: the positive `X`
    /// of a pair, the `(false …)` fact of a direct ⊥.
    pub open spec fn witness_of(self) -> u32 {
        match self.positive {
            Some(p) => p,
            None => self.negative,
        }
    }

    pub fn witness(&self) -> (w: u32)
        ensures
            w == self.witness_of(),
    {
        match self.positive {
            Some(p) => p,
            None => self.negative,
        }
    }
}

/// A fact's shape, as far as contradiction detection reads it.
#[derive(Clone, Copy, PartialEq, Eq, Debug)]
pub enum Shape {
    /// `(false …)`: contradiction stated outright.
    False,
    /// `(not …)`, with its first argument's id when that argument is a fact.
    Not(Option<u32>),
    /// Any other relation.
    Positive,
}

/// What contradiction detection reads of a KB and its interner.
pub struct FactBase {
    /// Each interned fact's shape, by id.
    pub shapes: Vec<Shape>,
    /// Whether the KB holds each interned fact, by id.
    pub held: Vec<bool>,
    /// The KB's `false` facts, in extent order.
    pub falses: Vec<u32>,
    /// The KB's `not` facts, in extent order.
    pub negations: Vec<u32>,
}

impl FactBase {
    /// Ids in range; the extents are exactly the held facts of their shape,
    /// each once.
    pub open spec fn wf(&self) -> bool {
        &&& self.shapes@.len() == self.held@.len()
        &&& self.shapes@.len() <= 0x1_0000_0000
        &&& forall|f: int| 0 <= f < self.shapes@.len() ==> match #[trigger] self.shapes@[f] {
            Shape::Not(Some(x)) => x < self.shapes@.len(),
            _ => true,
        }
        &&& self.falses@.no_duplicates()
        &&& self.negations@.no_duplicates()
        &&& forall|i: int| 0 <= i < self.falses@.len() ==> (#[trigger] self.falses@[i]) < self.shapes@.len()
        &&& forall|i: int| 0 <= i < self.negations@.len() ==> (#[trigger] self.negations@[i]) < self.shapes@.len()
        &&& forall|f: u32| f < self.shapes@.len() ==> (#[trigger] self.falses@.contains(f) <==> self.held@[f as int]
            && self.shapes@[f as int] is False)
        &&& forall|f: u32| f < self.shapes@.len() ==> (#[trigger] self.negations@.contains(f) <==> self.held@[f as int]
            && self.shapes@[f as int] is Not)
    }

    /// The fact wrapped by `(not …)` fact `n`, if it is a fact.
    pub open spec fn inner(&self, n: u32) -> Option<u32> {
        match self.shapes@[n as int] {
            Shape::Not(x) => x,
            _ => None,
        }
    }

    /// `(not …)` fact `n` pairs with a positive the KB holds.
    pub open spec fn pairs(&self, n: u32) -> bool {
        match self.inner(n) {
            Some(x) => self.held@[x as int],
            None => false,
        }
    }

    /// The pairs among the first `k` negations, in extent order.
    pub open spec fn pairs_upto(&self, k: nat) -> Seq<Contradiction>
        decreases k,
    {
        if k == 0 || k > self.negations@.len() {
            Seq::empty()
        } else {
            let prev = self.pairs_upto((k - 1) as nat);
            let n = self.negations@[k - 1];
            if self.pairs(n) {
                prev.push(Contradiction { positive: self.inner(n), negative: n, kind: Kind::Pair })
            } else {
                prev
            }
        }
    }

    /// Every contradiction the KB holds: each direct ⊥ in extent order, then
    /// each pair in extent order.
    pub open spec fn detected(&self) -> Seq<Contradiction> {
        self.falses@.map_values(|f: u32| Contradiction { positive: None, negative: f, kind: Kind::Direct })
            + self.pairs_upto(self.negations@.len())
    }

    /// Some `(not f)` is held.
    pub open spec fn negated(&self, f: u32) -> bool {
        exists|i: int| 0 <= i < self.negations@.len() && self.inner(#[trigger] self.negations@[i]) == Some(f)
    }

    /// `fact`, now held, makes the KB inconsistent by itself: it is a ⊥, a
    /// `(not X)` whose `X` is held, or an `X` some held `(not X)` wraps.
    pub open spec fn creates_contradiction(&self, fact: u32) -> bool {
        match self.shapes@[fact as int] {
            Shape::False => true,
            Shape::Not(_) => self.pairs(fact),
            Shape::Positive => self.negated(fact),
        }
    }
}

/// Every contradiction in the KB, direct ⊥ first.
pub fn detect(kb: &FactBase) -> (out: Vec<Contradiction>)
    requires
        kb.wf(),
    ensures
        out@ == kb.detected(),
{
    let mut out: Vec<Contradiction> = Vec::new();
    let mut i: usize = 0;
    while i < kb.falses.len()
        invariant
            i <= kb.falses@.len(),
            out@ == kb.falses@.take(i as int).map_values(|f: u32| Contradiction { positive: None, negative: f, kind: Kind::Direct }),
        decreases kb.falses@.len() - i,
    {
        out.push(Contradiction { positive: None, negative: kb.falses[i], kind: Kind::Direct });
        assert(kb.falses@.take(i + 1) =~= kb.falses@.take(i as int).push(kb.falses@[i as int]));
        assert(out@ =~= kb.falses@.take(i + 1).map_values(|f: u32| Contradiction { positive: None, negative: f, kind: Kind::Direct }));
        i = i + 1;
    }
    assert(kb.falses@.take(kb.falses@.len() as int) =~= kb.falses@);
    let ghost directs = out@;
    let mut k: usize = 0;
    while k < kb.negations.len()
        invariant
            kb.wf(),
            k <= kb.negations@.len(),
            directs == kb.falses@.map_values(|f: u32| Contradiction { positive: None, negative: f, kind: Kind::Direct }),
            out@ == directs + kb.pairs_upto(k as nat),
        decreases kb.negations@.len() - k,
    {
        let n = kb.negations[k];
        assert(n < kb.shapes@.len());
        if let Shape::Not(Some(x)) = kb.shapes[n as usize] {
            assert(x < kb.held@.len());
            if kb.held[x as usize] {
                out.push(Contradiction { positive: Some(x), negative: n, kind: Kind::Pair });
                assert(out@ =~= directs + kb.pairs_upto((k + 1) as nat));
            }
        }
        k = k + 1;
    }
    out
}

/// Short-circuit yes/no: stops on the first contradiction found.
pub fn has_contradiction(kb: &FactBase) -> (r: bool)
    requires
        kb.wf(),
    ensures
        r == (kb.detected().len() > 0),
{
    if kb.falses.len() > 0 {
        return true;
    }
    let mut k: usize = 0;
    while k < kb.negations.len()
        invariant
            kb.wf(),
            k <= kb.negations@.len(),
            kb.falses@.len() == 0,
            kb.pairs_upto(k as nat).len() == 0,
        decreases kb.negations@.len() - k,
    {
        let n = kb.negations[k];
        assert(n < kb.shapes@.len());
        if let Shape::Not(Some(x)) = kb.shapes[n as usize] {
            assert(x < kb.held@.len());
            if kb.held[x as usize] {
                proof {
                    lemma_pairs_grow(kb, (k + 1) as nat, kb.negations@.len());
                }
                return true;
            }
        }
        k = k + 1;
    }
    false
}

proof fn lemma_pairs_grow(kb: &FactBase, k: nat, m: nat)
    requires
        k <= m <= kb.negations@.len(),
    ensures
        kb.pairs_upto(k).len() <= kb.pairs_upto(m).len(),
    decreases m - k,
{
    if k < m {
        lemma_pairs_grow(kb, k, (m - 1) as nat);
    }
}

/// Some held `(not fact)` wraps `fact`.
pub(crate) fn is_negated(kb: &FactBase, fact: u32) -> (r: bool)
    requires
        kb.wf(),
    ensures
        r == kb.negated(fact),
{
    let mut k: usize = 0;
    while k < kb.negations.len()
        invariant
            kb.wf(),
            k <= kb.negations@.len(),
            forall|i: int| 0 <= i < k ==> kb.inner(#[trigger] kb.negations@[i]) != Some(fact),
        decreases kb.negations@.len() - k,
    {
        let n = kb.negations[k];
        assert(n < kb.shapes@.len());
        if let Shape::Not(Some(x)) = kb.shapes[n as usize] {
            if x == fact {
                assert(kb.inner(kb.negations@[k as int]) == Some(fact));
                return true;
            }
        }
        k = k + 1;
    }
    false
}

/// True iff `fact`, just written to `kb`, makes it inconsistent: the
/// incremental dual of [`detect`].
pub fn contradicts(kb: &FactBase, fact: u32) -> (r: bool)
    requires
        kb.wf(),
        fact < kb.shapes@.len(),
    ensures
        r == kb.creates_contradiction(fact),
{
    match kb.shapes[fact as usize] {
        Shape::False => true,
        Shape::Not(inner) => match inner {
            Some(x) => {
                assert(x < kb.held@.len());
                kb.held[x as usize]
            },
            None => false,
        },
        Shape::Positive => is_negated(kb, fact),
    }
}

/// `after` is `before` with `fact` written: held, and appended to its
/// shape's extent.
pub open spec fn lands(before: &FactBase, after: &FactBase, fact: u32) -> bool {
    &&& fact < before.shapes@.len()
    &&& !before.held@[fact as int]
    &&& after.shapes@ == before.shapes@
    &&& after.held@ == before.held@.update(fact as int, true)
    &&& after.falses@ == if before.shapes@[fact as int] is False {
        before.falses@.push(fact)
    } else {
        before.falses@
    }
    &&& after.negations@ == if before.shapes@[fact as int] is Not {
        before.negations@.push(fact)
    } else {
        before.negations@
    }
}

/// The incremental check agrees with the scan: on a KB consistent until
/// `fact` landed, `fact` creates a contradiction exactly when the KB now
/// holds one — unless `fact` is a `(not X)` that a held `(not (not X))`
/// already wrapped, which pairs with it without `fact` creating anything of
/// its own.
pub proof fn lemma_incremental_check_agrees(before: &FactBase, after: &FactBase, fact: u32)
    requires
        before.wf(),
        after.wf(),
        lands(before, after, fact),
        before.detected().len() == 0,
        before.shapes@[fact as int] is Not ==> !before.negated(fact),
    ensures
        after.creates_contradiction(fact) == (after.detected().len() > 0),
{
    let nb = before.negations@.len();
    lemma_no_pairs_before(before, after, fact, nb);
    match before.shapes@[fact as int] {
        Shape::False => {
            assert(after.detected().len() >= after.falses@.len());
        },
        Shape::Not(_) => {
            assert(before.falses@.len() == 0) by {
                if before.falses@.len() > 0 {
                    assert(before.detected().len() >= before.falses@.len());
                }
            }
            assert(after.negations@[nb as int] == fact);
            assert(after.pairs_upto((nb + 1) as nat).len() == (if after.pairs(fact) { 1int } else { 0int }));
        },
        Shape::Positive => {
            assert(before.falses@.len() == 0) by {
                if before.falses@.len() > 0 {
                    assert(before.detected().len() >= before.falses@.len());
                }
            }
            lemma_pairs_positive(before, after, fact, nb);
        },
    }
}

/// No negation held before `fact` landed pairs afterwards, except one that
/// wraps `fact` itself.
proof fn lemma_no_pairs_before(before: &FactBase, after: &FactBase, fact: u32, k: nat)
    requires
        before.wf(),
        after.wf(),
        lands(before, after, fact),
        before.detected().len() == 0,
        before.shapes@[fact as int] is Not ==> !before.negated(fact),
        k <= before.negations@.len(),
    ensures
        before.shapes@[fact as int] is Not ==> after.pairs_upto(k).len() == 0,
        forall|i: int| 0 <= i < k ==> !before.pairs(#[trigger] before.negations@[i]),
    decreases k,
{
    if k > 0 {
        lemma_no_pairs_before(before, after, fact, (k - 1) as nat);
        let n = before.negations@[k - 1];
        assert(after.negations@[k - 1] == n);
        lemma_pairs_grow(before, k, before.negations@.len());
        assert(before.pairs_upto(before.negations@.len()).len() == 0) by {
            assert(before.detected().len() == before.falses@.len() + before.pairs_upto(before.negations@.len()).len());
        }
        assert(!before.pairs(n));
        if before.shapes@[fact as int] is Not {
            if before.inner(n) == Some(fact) {
                assert(before.negated(fact));
            }
            assert(!after.pairs(n));
        }
    }
}

/// For a positive `fact`, the pairs after it landed are the negations that
/// wrap it.
proof fn lemma_pairs_positive(before: &FactBase, after: &FactBase, fact: u32, k: nat)
    requires
        before.wf(),
        after.wf(),
        lands(before, after, fact),
        before.shapes@[fact as int] is Positive,
        forall|i: int| 0 <= i < before.negations@.len() ==> !before.pairs(#[trigger] before.negations@[i]),
        k <= before.negations@.len(),
    ensures
        (after.pairs_upto(k).len() > 0) == exists|i: int| 0 <= i < k && after.inner(#[trigger] after.negations@[i]) == Some(fact),
    decreases k,
{
    if k > 0 {
        lemma_pairs_positive(before, after, fact, (k - 1) as nat);
        let n = after.negations@[k - 1];
        assert(before.negations@[k - 1] == n);
        assert(!before.pairs(n));
        if exists|i: int| 0 <= i < k && after.inner(#[trigger] after.negations@[i]) == Some(fact) {
            let i = choose|i: int| 0 <= i < k && after.inner(#[trigger] after.negations@[i]) == Some(fact);
            if i < k - 1 {
                assert(after.pairs_upto((k - 1) as nat).len() > 0);
            }
        }
        if after.pairs_upto(k).len() > 0 && after.pairs_upto((k - 1) as nat).len() == 0 {
            assert(after.pairs(n));
            assert(after.inner(after.negations@[k - 1]) == Some(fact));
        }
    }
}

} // verus!
