//! The saturator's native mirror: the arg-swap closure of the symmetric
//! relations.
//!
//! A relation marked `(__symmetric__ R)` has its extension closed under
//! arg-swap. Rather than compile the stdlib `symmetric` rule and run the
//! matcher each pass, the saturator pops a source `(R a b)` off a stack and
//! writes `(R b a)` directly; the mirror then feeds the delta so rules
//! re-enqueue against it. The stack is seeded once with the marked
//! relations' extents, relations in name order, and every fact a firing
//! later writes to a marked relation is pushed on it.
//!
//! The pass reaches the closure: while every held edge that lacks its
//! mirror is on the stack, a step that writes nothing leaves no edge
//! without its mirror.
use vstd::prelude::*;

use crate::events::{event_text, json_str, sexpr, with_key, Events, Line};
use crate::facts::{
    lemma_probe_found, lemma_probe_push, probe, probe_from, probe_pair, same_arg, unique_rows, Arg, FactTable, Row,
};
use crate::text::{order_by_text, owned, text_order, texts};

verus! {

/// The marker relation's name.
pub const SYMMETRIC: &'static str = "__symmetric__";

/// The KB's facts of relation `rel`, in the order they were added.
pub open spec fn extent(tbl: &FactTable, kb: Seq<u32>, rel: u32) -> Seq<u32>
    decreases kb.len(),
{
    if kb.len() == 0 {
        Seq::empty()
    } else {
        let prev = extent(tbl, kb.drop_last(), rel);
        if tbl.rows@[kb.last() as int].rel == rel {
            prev.push(kb.last())
        } else {
            prev
        }
    }
}

/// The facts the KB holds are interned, each held once.
pub open spec fn kb_ok(tbl: &FactTable, kb: Seq<u32>) -> bool {
    &&& kb.no_duplicates()
    &&& forall|k: int| 0 <= k < kb.len() ==> (#[trigger] kb[k]) < tbl.rows@.len()
}

/// Fact `f` is a mirror source: an edge `(R a b)` of a marked relation,
/// with `a ≠ b`.
pub open spec fn swappable(tbl: &FactTable, syms: Seq<u32>, f: u32) -> bool {
    let r = tbl.rows@[f as int];
    &&& syms.contains(r.rel)
    &&& r.args@.len() == 2
    &&& r.args@[0] != r.args@[1]
}

/// Fact `f`'s arguments, swapped.
pub open spec fn swapped(tbl: &FactTable, f: u32) -> Seq<Arg> {
    seq![tbl.rows@[f as int].args@[1], tbl.rows@[f as int].args@[0]]
}

/// The mirror of fact `f` that the KB holds, if it holds one.
pub open spec fn held_mirror(tbl: &FactTable, kb: Seq<u32>, f: u32) -> Option<u32> {
    match probe(tbl, tbl.rows@[f as int].rel, swapped(tbl, f)) {
        Some(m) => if kb.contains(m) {
            Some(m)
        } else {
            None
        },
        None => None,
    }
}

/// A held edge of a marked relation that lacks its mirror.
pub open spec fn pending(tbl: &FactTable, kb: Seq<u32>, syms: Seq<u32>, f: u32) -> bool {
    &&& kb.contains(f)
    &&& swappable(tbl, syms, f)
    &&& held_mirror(tbl, kb, f) is None
}

/// The KB is closed under arg-swap on the marked relations.
pub open spec fn mirror_closed(tbl: &FactTable, kb: Seq<u32>, syms: Seq<u32>) -> bool {
    forall|f: u32| !pending(tbl, kb, syms, f)
}

/// Every edge lacking its mirror waits on the stack.
pub open spec fn covered(tbl: &FactTable, kb: Seq<u32>, syms: Seq<u32>, queue: Seq<u32>) -> bool {
    forall|f: u32| #[trigger] pending(tbl, kb, syms, f) ==> queue.contains(f)
}

// ── Small operations ─────────────────────────────────────────────────

/// Whether the KB holds fact `f`.
pub(crate) fn holds_in(kb: &Vec<u32>, f: u32) -> (r: bool)
    ensures
        r == kb@.contains(f),
{
    let mut i: usize = 0;
    while i < kb.len()
        invariant
            i <= kb@.len(),
            forall|k: int| 0 <= k < i ==> kb@[k] != f,
        decreases kb@.len() - i,
    {
        if kb[i] == f {
            assert(kb@[i as int] == f);
            return true;
        }
        i = i + 1;
    }
    false
}

pub(crate) fn contains_id_in(v: &[u32], x: u32) -> (r: bool)
    ensures
        r == v@.contains(x),
{
    let mut i: usize = 0;
    while i < v.len()
        invariant
            i <= v@.len(),
            forall|k: int| 0 <= k < i ==> v@[k] != x,
        decreases v@.len() - i,
    {
        if v[i] == x {
            assert(v@[i as int] == x);
            return true;
        }
        i = i + 1;
    }
    false
}

// ── The marked relations ─────────────────────────────────────────────

/// The relations the marker facts name, in the order the KB holds them:
/// `(__symmetric__ R)` with `R` a name.
pub open spec fn marked(tbl: &FactTable, kb: Seq<u32>, marker: u32) -> Seq<u32>
    decreases kb.len(),
{
    if kb.len() == 0 {
        Seq::empty()
    } else {
        let prev = marked(tbl, kb.drop_last(), marker);
        let r = tbl.rows@[kb.last() as int];
        if r.rel == marker && r.args@.len() > 0 && r.args@[0] is Sym {
            prev.push(r.args@[0]->Sym_0)
        } else {
            prev
        }
    }
}

/// The marked relations' names.
pub open spec fn marked_names(tbl: &FactTable, kb: Seq<u32>, marker: u32) -> Seq<Seq<char>> {
    marked(tbl, kb, marker).map_values(|s: u32| tbl.name(s))
}

/// `s` with each run of equal neighbours cut to one.
pub open spec fn dedup_adjacent(s: Seq<u32>) -> Seq<u32>
    decreases s.len(),
{
    if s.len() == 0 {
        Seq::empty()
    } else {
        let prev = dedup_adjacent(s.drop_last());
        if s.len() > 1 && s[s.len() - 2] == s.last() {
            prev
        } else {
            prev.push(s.last())
        }
    }
}

/// The marked relations: the marker facts' names, sorted by name (stably)
/// and with repeats cut — so the mirror's seed order is a function of the
/// input alone.
pub fn symmetric_rels(tbl: &FactTable, kb: &Vec<u32>, marker: u32) -> (r: Vec<u32>)
    requires
        tbl.wf(),
        kb_ok(tbl, kb@),
    ensures
        exists|order: Seq<int>|
            #[trigger] text_order(marked_names(tbl, kb@, marker), order) && r@ == dedup_adjacent(
                order.map_values(|t: int| marked(tbl, kb@, marker)[t]),
            ),
{
    let mut marks: Vec<u32> = Vec::new();
    let mut names: Vec<String> = Vec::new();
    let mut i: usize = 0;
    while i < kb.len()
        invariant
            tbl.wf(),
            kb_ok(tbl, kb@),
            i <= kb@.len(),
            marks@ == marked(tbl, kb@.take(i as int), marker),
            texts(names@) == marks@.map_values(|s: u32| tbl.name(s)),
            forall|k: int| 0 <= k < marks@.len() ==> (#[trigger] marks@[k]) < tbl.names@.len(),
        decreases kb@.len() - i,
    {
        assert(kb@.take(i + 1).drop_last() =~= kb@.take(i as int));
        let f = kb[i];
        assert(kb@[i as int] < tbl.rows@.len());
        assert(tbl.row_ok(f as int));
        let row = &tbl.rows[f as usize];
        if row.rel == marker && row.args.len() > 0 {
            match row.args[0] {
                Arg::Sym(s) => {
                    assert(tbl.arg_ok(row.args@[0], f as int));
                    let ghost before_names = names@;
                    let ghost before_marks = marks@;
                    assert(texts(before_names).len() == before_names.len());
                    assert(before_names.len() == before_marks.len());
                    marks.push(s);
                    let nm = owned(tbl.names[s as usize].as_str());
                    assert(nm@ == tbl.name(s));
                    names.push(nm);
                    assert forall|q: int| 0 <= q < names@.len() implies #[trigger] texts(names@)[q]
                        == tbl.name(marks@[q]) by {
                        if q < names@.len() - 1 {
                            assert(names@[q] == before_names[q]);
                            assert(marks@[q] == before_marks[q]);
                            assert(texts(before_names)[q] == before_names[q]@);
                            assert(texts(before_names)[q] == before_marks.map_values(|s: u32| tbl.name(s))[q]);
                        } else {
                            assert(names@[q] == nm);
                        }
                    }
                    assert(texts(names@) =~= marks@.map_values(|s: u32| tbl.name(s)));
                },
                _ => {},
            }
        }
        i = i + 1;
    }
    assert(kb@.take(kb@.len() as int) =~= kb@);
    let order = order_by_text(&names);
    let ghost ord = order@.map_values(|t: usize| t as int);
    let ghost m = marks@;
    let mut out: Vec<u32> = Vec::new();
    let mut k: usize = 0;
    while k < order.len()
        invariant
            ord == order@.map_values(|t: usize| t as int),
            text_order(texts(names@), ord),
            m == marks@,
            names@.len() == m.len(),
            k <= order@.len(),
            out@ == dedup_adjacent(ord.take(k as int).map_values(|t: int| m[t])),
            k > 0 ==> out@.len() > 0 && out@.last() == m[ord[k - 1]],
        decreases order@.len() - k,
    {
        assert(ord[k as int] == order@[k as int] as int);
        assert(texts(names@).len() == names@.len());
        let x = marks[order[k]];
        let ghost seq_k = ord.take(k + 1).map_values(|t: int| m[t]);
        assert(seq_k.drop_last() =~= ord.take(k as int).map_values(|t: int| m[t]));
        assert(seq_k.last() == x);
        if k == 0 || out[out.len() - 1] != x {
            out.push(x);
        }
        proof {
            if k > 0 {
                assert(seq_k[seq_k.len() - 2] == m[ord[k - 1]]);
            }
        }
        k = k + 1;
    }
    assert(ord.take(ord.len() as int) =~= ord);
    assert(texts(names@) == marked_names(tbl, kb@, marker));
    assert(text_order(marked_names(tbl, kb@, marker), ord));
    out
}

// ── The stack ────────────────────────────────────────────────────────

/// The marked relations' extents, relation after relation: the seed.
pub open spec fn seed(tbl: &FactTable, kb: Seq<u32>, syms: Seq<u32>) -> Seq<u32>
    decreases syms.len(),
{
    if syms.len() == 0 {
        Seq::empty()
    } else {
        seed(tbl, kb, syms.drop_last()) + extent(tbl, kb, syms.last())
    }
}

/// Popping the stack `q` from its top: the second derivations recorded on
/// the way — `(mirror, source)` for a source whose mirror is already
/// held — the source whose mirror gets written, and the stack left.
pub open spec fn scan(tbl: &FactTable, kb: Seq<u32>, syms: Seq<u32>, q: Seq<u32>) -> (
    Seq<(u32, u32)>,
    Option<u32>,
    Seq<u32>,
)
    decreases q.len(),
{
    if q.len() == 0 {
        (Seq::empty(), None, Seq::empty())
    } else {
        let src = q.last();
        let rest = q.drop_last();
        if !swappable(tbl, syms, src) {
            scan(tbl, kb, syms, rest)
        } else {
            match held_mirror(tbl, kb, src) {
                Some(m) => {
                    let r = scan(tbl, kb, syms, rest);
                    (seq![(m, src)] + r.0, r.1, r.2)
                },
                None => (Seq::empty(), Some(src), rest),
            }
        }
    }
}

/// The mirror pass's state: the stack of sources — a LIFO stack — and
/// whether it was seeded.
pub struct Mirror {
    pub queue: Vec<u32>,
    pub seeded: bool,
}

/// One mirror write: `(rel b a)` from the source `(rel a b)`.
#[derive(Clone, Copy, PartialEq, Eq, Debug)]
pub struct MirrorWrite {
    pub src: u32,
    pub stored: u32,
    pub rel: u32,
    pub a: Arg,
    pub b: Arg,
}

/// What one call did: the second derivations it found, in pop order, and
/// the mirror it wrote, if any.
pub struct MirrorStep {
    pub alternatives: Vec<(u32, u32)>,
    pub wrote: Option<MirrorWrite>,
}

impl Mirror {
    /// An unseeded, empty stack.
    pub fn new() -> (m: Mirror)
        ensures
            m.queue@ == Seq::<u32>::empty(),
            !m.seeded,
    {
        Mirror { queue: Vec::new(), seeded: false }
    }
}

/// The stack once seeding has happened.
pub open spec fn start_queue(m: &Mirror, tbl: &FactTable, kb: Seq<u32>, syms: Seq<u32>) -> Seq<u32> {
    if m.seeded {
        m.queue@
    } else {
        m.queue@ + seed(tbl, kb, syms)
    }
}

// ── Lemmas ───────────────────────────────────────────────────────────

proof fn lemma_extent_in_kb(tbl: &FactTable, kb: Seq<u32>, rel: u32)
    ensures
        forall|x: u32| #[trigger] extent(tbl, kb, rel).contains(x) ==> kb.contains(x),
        forall|x: u32| kb.contains(x) && tbl.rows@[x as int].rel == rel ==> #[trigger] extent(tbl, kb, rel).contains(x),
    decreases kb.len(),
{
    if kb.len() > 0 {
        let p = kb.drop_last();
        lemma_extent_in_kb(tbl, p, rel);
        assert forall|x: u32| #[trigger] extent(tbl, kb, rel).contains(x) implies kb.contains(x) by {
            if extent(tbl, p, rel).contains(x) {
                assert(p.contains(x));
                let k = choose|k: int| 0 <= k < p.len() && p[k] == x;
                assert(kb[k] == x);
            } else {
                assert(kb[kb.len() - 1] == x);
            }
        }
        assert forall|x: u32| kb.contains(x) && tbl.rows@[x as int].rel == rel implies #[trigger] extent(
            tbl,
            kb,
            rel,
        ).contains(x) by {
            let k = choose|k: int| 0 <= k < kb.len() && kb[k] == x;
            if k < kb.len() - 1 {
                assert(p[k] == x);
                assert(extent(tbl, p, rel).contains(x));
                let e = choose|e: int| 0 <= e < extent(tbl, p, rel).len() && extent(tbl, p, rel)[e] == x;
                assert(extent(tbl, kb, rel)[e] == x);
            } else {
                let ex = extent(tbl, kb, rel);
                assert(ex[ex.len() - 1] == x);
            }
        }
    }
}

proof fn lemma_seed_members(tbl: &FactTable, kb: Seq<u32>, syms: Seq<u32>)
    ensures
        forall|x: u32| #[trigger] seed(tbl, kb, syms).contains(x) ==> kb.contains(x),
        forall|x: u32|
            kb.contains(x) && syms.contains(tbl.rows@[x as int].rel) ==> #[trigger] seed(tbl, kb, syms).contains(x),
    decreases syms.len(),
{
    if syms.len() > 0 {
        let init = syms.drop_last();
        let r = syms.last();
        lemma_seed_members(tbl, kb, init);
        lemma_extent_in_kb(tbl, kb, r);
        assert forall|x: u32| #[trigger] seed(tbl, kb, syms).contains(x) implies kb.contains(x) by {
            crate::text::lemma_concat_contains(seed(tbl, kb, init), extent(tbl, kb, r), x);
        }
        assert forall|x: u32| kb.contains(x) && syms.contains(tbl.rows@[x as int].rel) implies #[trigger] seed(
            tbl,
            kb,
            syms,
        ).contains(x) by {
            crate::text::lemma_concat_contains(seed(tbl, kb, init), extent(tbl, kb, r), x);
            let rel = tbl.rows@[x as int].rel;
            let k = choose|k: int| 0 <= k < syms.len() && syms[k] == rel;
            if k < syms.len() - 1 {
                assert(init[k] == rel);
                assert(init.contains(rel));
            } else {
                assert(extent(tbl, kb, r).contains(x));
            }
        }
    }
}

/// What popping leaves behind: with nothing written, nothing popped was
/// pending; with `src` written, `src` is a swappable source lacking its
/// mirror, the stack left is what lay below it, and nothing popped above it
/// was pending.
proof fn lemma_scan(tbl: &FactTable, kb: Seq<u32>, syms: Seq<u32>, q: Seq<u32>)
    ensures
        scan(tbl, kb, syms, q).1 is None ==> forall|x: u32| #[trigger] q.contains(x) ==> !pending(tbl, kb, syms, x),
        scan(tbl, kb, syms, q).1 matches Some(src) ==> {
            &&& swappable(tbl, syms, src)
            &&& held_mirror(tbl, kb, src) is None
            &&& exists|k: int|
                0 <= k < q.len() && q[k] == src && scan(tbl, kb, syms, q).2 == q.take(k) && forall|j: int|
                    k < j < q.len() ==> !pending(tbl, kb, syms, #[trigger] q[j])
        },
    decreases q.len(),
{
    if q.len() > 0 {
        let src = q.last();
        let rest = q.drop_last();
        lemma_scan(tbl, kb, syms, rest);
        let n = q.len() - 1;
        if !swappable(tbl, syms, src) || held_mirror(tbl, kb, src) is Some {
            assert(!pending(tbl, kb, syms, src));
            if scan(tbl, kb, syms, q).1 is None {
                assert forall|x: u32| #[trigger] q.contains(x) implies !pending(tbl, kb, syms, x) by {
                    let k = choose|k: int| 0 <= k < q.len() && q[k] == x;
                    if k < n {
                        assert(rest[k] == x);
                        assert(rest.contains(x));
                    }
                }
            }
            if scan(tbl, kb, syms, q).1 is Some {
                let k = choose|k: int|
                    0 <= k < rest.len() && rest[k] == scan(tbl, kb, syms, rest).1->Some_0 && scan(tbl, kb, syms, rest).2
                        == rest.take(k) && forall|j: int|
                        k < j < rest.len() ==> !pending(tbl, kb, syms, #[trigger] rest[j]);
                assert(q[k] == rest[k]);
                assert(rest.take(k) =~= q.take(k));
                assert forall|j: int| k < j < q.len() implies !pending(tbl, kb, syms, #[trigger] q[j]) by {
                    if j < n {
                        assert(q[j] == rest[j]);
                    }
                }
            }
        } else {
            assert(q[n] == src);
            assert(rest =~= q.take(n));
        }
    }
}


/// Writing `src`'s mirror keeps the interner and the KB well formed, and
/// keeps every edge lacking its mirror on the stack.
proof fn lemma_write_keeps(
    t0: &FactTable,
    t1: &FactTable,
    k0: Seq<u32>,
    syms: Seq<u32>,
    q0: Seq<u32>,
    src: u32,
    stored: u32,
)
    requires
        t0.wf(),
        unique_rows(t0),
        t0.rows@.len() < u32::MAX,
        kb_ok(t0, k0),
        queue_ok(t0, q0),
        t1.names@ == t0.names@,
        src < t0.rows@.len(),
        scan(t0, k0, syms, q0).1 == Some(src),
        swappable(t0, syms, src),
        held_mirror(t0, k0, src) is None,
        match probe(t0, t0.rows@[src as int].rel, swapped(t0, src)) {
            Some(id) => stored == id && t1.rows@ == t0.rows@,
            None => stored == t0.rows@.len() && t1.rows@.len() == t0.rows@.len() + 1 && t1.rows@.take(
                t0.rows@.len() as int,
            ) == t0.rows@ && t1.rows@.last().rel == t0.rows@[src as int].rel && t1.rows@.last().args@ == swapped(
                t0,
                src,
            ),
        },
    ensures
        t1.wf(),
        unique_rows(t1),
        kb_ok(t1, k0.push(stored)),
        queue_ok(t1, scan(t0, k0, syms, q0).2.push(stored)),
        covered(t0, k0, syms, q0) ==> covered(t1, k0.push(stored), syms, scan(t0, k0, syms, q0).2.push(stored)),
{
    let n = t0.rows@.len();
    let rel = t0.rows@[src as int].rel;
    let sw = swapped(t0, src);
    let k1 = k0.push(stored);
    let rest = scan(t0, k0, syms, q0).2;
    lemma_scan(t0, k0, syms, q0);
    lemma_probe_found(t0.rows@, rel, sw, 0);
    let k = choose|k: int|
        0 <= k < q0.len() && q0[k] == src && rest == q0.take(k) && forall|j: int|
            k < j < q0.len() ==> !pending(t0, k0, syms, #[trigger] q0[j]);
    let fresh = probe(t0, rel, sw) is None;
    if fresh {
        assert(t1.rows@ =~= t0.rows@.push(t1.rows@.last()));
    }
    // Every old row is unchanged.
    assert forall|f: int| 0 <= f < n implies #[trigger] t1.rows@[f] == t0.rows@[f] by {
        if fresh {
            assert(t1.rows@.take(n as int)[f] == t1.rows@[f]);
        }
    }
    // The interner stays well formed and duplicate-free.
    assert(t0.row_ok(src as int));
    assert forall|f: int| 0 <= f < t1.rows@.len() implies #[trigger] t1.row_ok(f) by {
        if f < n {
            assert(t0.row_ok(f));
            assert(t1.rows@[f] == t0.rows@[f]);
        } else {
            assert(t0.arg_ok(t0.rows@[src as int].args@[0], src as int));
            assert(t0.arg_ok(t0.rows@[src as int].args@[1], src as int));
            assert forall|q: int| 0 <= q < t1.rows@[f].args@.len() implies t1.arg_ok(
                #[trigger] t1.rows@[f].args@[q],
                f,
            ) by {
                if q == 0 {
                    assert(t1.rows@[f].args@[q] == t0.rows@[src as int].args@[1]);
                } else {
                    assert(t1.rows@[f].args@[q] == t0.rows@[src as int].args@[0]);
                }
            }
        }
    }
    assert forall|i: int, j: int| 0 <= i < j < t1.rows@.len() implies !(#[trigger] t1.rows@[i].rel
        == #[trigger] t1.rows@[j].rel && t1.rows@[i].args@ == t1.rows@[j].args@) by {
        if j < n {
            assert(t1.rows@[i] == t0.rows@[i] && t1.rows@[j] == t0.rows@[j]);
        } else {
            assert(t1.rows@[i] == t0.rows@[i]);
        }
    }
    // The KB holds each fact once.
    assert(!k0.contains(stored)) by {
        if k0.contains(stored) {
            let q = choose|q: int| 0 <= q < k0.len() && k0[q] == stored;
            assert(k0[q] < n);
        }
    }
    assert(kb_ok(t1, k1)) by {
        assert forall|q: int| 0 <= q < k1.len() implies (#[trigger] k1[q]) < t1.rows@.len() by {
            if q < k0.len() {
                assert(k1[q] == k0[q]);
            }
        }
    }
    assert(queue_ok(t1, rest.push(stored))) by {
        assert forall|q: int| 0 <= q < rest.push(stored).len() implies (#[trigger] rest.push(stored)[q])
            < t1.rows@.len() by {
            if q < rest.len() {
                assert(rest[q] == q0[q]);
            }
        }
    }
    // Probing an old fact's mirror in the grown interner.
    assert forall|f: u32| f < n implies #[trigger] probe(t1, t0.rows@[f as int].rel, swapped(t0, f)) == (match probe(
        t0,
        t0.rows@[f as int].rel,
        swapped(t0, f),
    ) {
        Some(x) => Some(x),
        None => if fresh && t0.rows@[f as int].rel == rel && swapped(t0, f) == sw {
            Some(n as u32)
        } else {
            None
        },
    }) by {
        if fresh {
            lemma_probe_push(t0.rows@, t1.rows@.last(), t0.rows@[f as int].rel, swapped(t0, f), 0);
        }
    }
    // `src` now has its mirror.
    assert(held_mirror(t1, k1, src) == Some(stored)) by {
        assert(t1.rows@[src as int] == t0.rows@[src as int]);
        assert(swapped(t1, src) == sw);
        assert(probe(t1, t0.rows@[src as int].rel, swapped(t0, src)) == Some(stored));
        assert(k1[k0.len() as int] == stored);
        assert(k1.contains(stored));
    }
    if covered(t0, k0, syms, q0) {
        assert forall|f: u32| #[trigger] pending(t1, k1, syms, f) implies rest.push(stored).contains(f) by {
            if f == stored {
                assert(rest.push(stored)[rest.len() as int] == stored);
            } else {
                assert(k0.contains(f)) by {
                    let q = choose|q: int| 0 <= q < k1.len() && k1[q] == f;
                    assert(k0[q] == f);
                }
                let qf = choose|q: int| 0 <= q < k0.len() && k0[q] == f;
                assert(f < n);
                assert(t1.rows@[f as int] == t0.rows@[f as int]);
                assert(swapped(t1, f) == swapped(t0, f));
                assert(swappable(t0, syms, f));
                assert(f != src);
                assert(held_mirror(t0, k0, f) is None) by {
                    match probe(t0, t0.rows@[f as int].rel, swapped(t0, f)) {
                        Some(x) => {
                            if k0.contains(x) {
                                assert(k1.contains(x)) by {
                                    let q = choose|q: int| 0 <= q < k0.len() && k0[q] == x;
                                    assert(k1[q] == x);
                                }
                            }
                        },
                        None => {},
                    }
                }
                assert(pending(t0, k0, syms, f));
                assert(q0.contains(f));
                let j = choose|j: int| 0 <= j < q0.len() && q0[j] == f;
                assert(j < k) by {
                    if j > k {
                        assert(!pending(t0, k0, syms, q0[j]));
                    }
                }
                assert(rest[j] == f);
                assert(rest.push(stored)[j] == f);
            }
        }
    }
}

// ── The step ─────────────────────────────────────────────────────────

/// The stack's ids are interned facts.
pub open spec fn queue_ok(tbl: &FactTable, q: Seq<u32>) -> bool {
    forall|k: int| 0 <= k < q.len() ==> (#[trigger] q[k]) < tbl.rows@.len()
}

/// One native mirror write, or none: seed the stack on the first call,
/// then pop sources — skipping any not a swappable edge of a marked
/// relation, and recording `(mirror, source)` for one whose mirror is
/// already held, a real second derivation of it — until one lacks its
/// mirror. That mirror is interned if need be, added to the KB, and
/// pushed: it is itself a source.
///
/// While every held edge lacking its mirror is on the stack — which the
/// seeding makes true — it stays so, and a call that writes nothing
/// leaves the KB closed under arg-swap.
pub fn next_mirror(m: &mut Mirror, tbl: &mut FactTable, kb: &mut Vec<u32>, syms: &[u32]) -> (r: MirrorStep)
    requires
        old(tbl).wf(),
        unique_rows(old(tbl)),
        old(tbl).rows@.len() < u32::MAX,
        kb_ok(old(tbl), old(kb)@),
        queue_ok(old(tbl), old(m).queue@),
    ensures
        ({
            let q0 = start_queue(old(m), old(tbl), old(kb)@, syms@);
            let sc = scan(old(tbl), old(kb)@, syms@, q0);
            &&& final(m).seeded
            &&& r.alternatives@ == sc.0
            &&& final(tbl).names@ == old(tbl).names@
            &&& sc.1 is None ==> r.wrote is None && final(tbl).rows@ == old(tbl).rows@ && final(kb)@ == old(kb)@
                && final(m).queue@ == sc.2
            &&& sc.1 matches Some(src) ==> r.wrote matches Some(w) && {
                let row = old(tbl).rows@[src as int];
                &&& w.src == src
                &&& w.rel == row.rel
                &&& w.a == row.args@[0]
                &&& w.b == row.args@[1]
                &&& final(kb)@ == old(kb)@.push(w.stored)
                &&& final(m).queue@ == sc.2.push(w.stored)
                &&& match probe(old(tbl), row.rel, seq![w.b, w.a]) {
                    Some(id) => w.stored == id && final(tbl).rows@ == old(tbl).rows@,
                    None => w.stored == old(tbl).rows@.len() && final(tbl).rows@.len() == old(tbl).rows@.len() + 1
                        && final(tbl).rows@.take(old(tbl).rows@.len() as int) == old(tbl).rows@
                        && final(tbl).rows@.last().rel == row.rel && final(tbl).rows@.last().args@ == seq![w.b, w.a],
                }
            }
        }),
        final(tbl).wf(),
        unique_rows(final(tbl)),
        kb_ok(final(tbl), final(kb)@),
        queue_ok(final(tbl), final(m).queue@),
        !old(m).seeded || covered(old(tbl), old(kb)@, syms@, old(m).queue@) ==> covered(
            final(tbl),
            final(kb)@,
            syms@,
            final(m).queue@,
        ) && (r.wrote is None ==> mirror_closed(final(tbl), final(kb)@, syms@)),
{
    let ghost t0: FactTable = *tbl;
    let ghost k0 = kb@;
    let ghost base = m.queue@;
    assert(kb_ok(&t0, k0));
    if !m.seeded {
        m.seeded = true;
        let mut i: usize = 0;
        while i < syms.len()
            invariant
                t0 == *tbl,
                k0 == kb@,
                t0 == *old(tbl),
                k0 == old(kb)@,
                base == old(m).queue@,
                kb_ok(&t0, k0),
                m.seeded,
                i <= syms@.len(),
                m.queue@ == base + seed(&t0, k0, syms@.take(i as int)),
            decreases syms@.len() - i,
        {
            let rel = syms[i];
            let ghost before = m.queue@;
            let mut j: usize = 0;
            while j < kb.len()
                invariant
                    t0 == *tbl,
                    k0 == kb@,
                    kb_ok(&t0, k0),
                    m.seeded,
                    j <= kb@.len(),
                    m.queue@ == before + extent(&t0, k0.take(j as int), rel),
                decreases kb@.len() - j,
            {
                assert(k0.take(j + 1).drop_last() =~= k0.take(j as int));
                assert(k0.take(j + 1).last() == k0[j as int]);
                let f = kb[j];
                if tbl.rows[f as usize].rel == rel {
                    m.queue.push(f);
                }
                j = j + 1;
            }
            assert(k0.take(k0.len() as int) =~= k0);
            assert(syms@.take(i + 1).drop_last() =~= syms@.take(i as int));
            i = i + 1;
        }
        assert(syms@.take(syms@.len() as int) =~= syms@);
    }
    let ghost q0 = m.queue@;
    assert(q0 == start_queue(old(m), &t0, k0, syms@));
    proof {
        lemma_seed_members(&t0, k0, syms@);
        if !old(m).seeded {
            assert forall|f: u32| #[trigger] pending(&t0, k0, syms@, f) implies q0.contains(f) by {
                assert(seed(&t0, k0, syms@).contains(f));
                let j = choose|j: int| 0 <= j < seed(&t0, k0, syms@).len() && seed(&t0, k0, syms@)[j] == f;
                assert(q0[base.len() + j] == f);
            }
        }
        assert(queue_ok(&t0, q0)) by {
            assert forall|k: int| 0 <= k < q0.len() implies (#[trigger] q0[k]) < t0.rows@.len() by {
                if k >= base.len() {
                    assert(seed(&t0, k0, syms@).contains(q0[k]));
                    assert(k0.contains(q0[k]));
                }
            }
        }
        lemma_scan(&t0, k0, syms@, q0);
    }
    assert(t0 == *old(tbl));
    assert(k0 == old(kb)@);
    let mut alts: Vec<(u32, u32)> = Vec::new();
    while m.queue.len() > 0
        invariant
            t0 == *tbl,
            k0 == kb@,
            t0 == *old(tbl),
            k0 == old(kb)@,
            q0 == start_queue(old(m), old(tbl), old(kb)@, syms@),
            t0.wf(),
            unique_rows(&t0),
            t0.rows@.len() < u32::MAX,
            kb_ok(&t0, k0),
            queue_ok(&t0, m.queue@),
            queue_ok(&t0, q0),
            m.seeded,
            (!old(m).seeded || covered(old(tbl), old(kb)@, syms@, old(m).queue@)) ==> covered(&t0, k0, syms@, q0),
            scan(&t0, k0, syms@, q0) == (
                alts@ + scan(&t0, k0, syms@, m.queue@).0,
                scan(&t0, k0, syms@, m.queue@).1,
                scan(&t0, k0, syms@, m.queue@).2,
            ),
        decreases m.queue@.len(),
    {
        let ghost q = m.queue@;
        let src = m.queue.pop().unwrap();
        assert(q.drop_last() == m.queue@ && q.last() == src);
        assert(src < t0.rows@.len()) by {
            assert(q[q.len() - 1] == src);
        }
        assert(t0.row_ok(src as int));
        let row = &tbl.rows[src as usize];
        let rel = row.rel;
        if !contains_id_in(syms, rel) || row.args.len() != 2 {
            continue;
        }
        let a = row.args[0];
        let b = row.args[1];
        if same_arg(a, b) {
            continue;
        }
        assert(swappable(&t0, syms@, src));
        assert(swapped(&t0, src) =~= seq![b, a]);
        let existing = probe_pair(tbl, rel, b, a);
        match existing {
            Some(mm) => {
                if holds_in(kb, mm) {
                    let ghost before = alts@;
                    alts.push((mm, src));
                    assert(alts@ + scan(&t0, k0, syms@, m.queue@).0 =~= before + (seq![(mm, src)] + scan(
                        &t0,
                        k0,
                        syms@,
                        m.queue@,
                    ).0));
                    continue;
                }
            },
            None => {},
        }
        // The source lacks its mirror: write it.
        assert(held_mirror(&t0, k0, src) is None);
        let ghost rest = m.queue@;
        assert(scan(&t0, k0, syms@, q) == (Seq::<(u32, u32)>::empty(), Some(src), rest));
        assert(scan(&t0, k0, syms@, q0).1 == Some(src));
        assert(scan(&t0, k0, syms@, q0).2 == rest);
        assert(alts@ + Seq::<(u32, u32)>::empty() =~= alts@);
        assert(scan(&t0, k0, syms@, q0).0 == alts@);
        proof {
            lemma_probe_found(t0.rows@, rel, seq![b, a], 0);
        }
        let n = tbl.rows.len();
        let stored = match existing {
            Some(id) => id,
            None => {
                assert(t0.arg_ok(a, src as int) && t0.arg_ok(b, src as int));
                let mut args: Vec<Arg> = Vec::new();
                args.push(b);
                args.push(a);
                assert(args@ =~= seq![b, a]);
                tbl.rows.push(Row { rel, args });
                assert(tbl.rows@.take(n as int) =~= t0.rows@);
                assert(tbl.rows@.last().args@ == swapped(&t0, src));
                n as u32
            },
        };
        kb.push(stored);
        m.queue.push(stored);
        proof {
            lemma_write_keeps(&t0, tbl, k0, syms@, q0, src, stored);
        }
        return MirrorStep { alternatives: alts, wrote: Some(MirrorWrite { src, stored, rel, a, b }) };
    }
    proof {
        assert(m.queue@ =~= Seq::<u32>::empty());
        assert(scan(&t0, k0, syms@, q0).1 is None);
    }
    MirrorStep { alternatives: alts, wrote: None }
}

// ── Feeding the stack, and the stall check ───────────────────────────

/// The facts of `facts` whose relation is marked, in order.
pub open spec fn marked_sources(tbl: &FactTable, syms: Seq<u32>, facts: Seq<u32>) -> Seq<u32>
    decreases facts.len(),
{
    if facts.len() == 0 {
        Seq::empty()
    } else {
        let prev = marked_sources(tbl, syms, facts.drop_last());
        if syms.contains(tbl.rows@[facts.last() as int].rel) {
            prev.push(facts.last())
        } else {
            prev
        }
    }
}

/// Push the facts a firing derived whose relation is marked: they are
/// sources for the mirror.
pub fn enqueue_mirror_sources(m: &mut Mirror, tbl: &FactTable, syms: &[u32], facts: &[u32])
    requires
        forall|k: int| 0 <= k < facts@.len() ==> (#[trigger] facts@[k]) < tbl.rows@.len(),
    ensures
        final(m).queue@ == old(m).queue@ + marked_sources(tbl, syms@, facts@),
        final(m).seeded == old(m).seeded,
{
    let ghost base = m.queue@;
    let mut i: usize = 0;
    while i < facts.len()
        invariant
            forall|k: int| 0 <= k < facts@.len() ==> (#[trigger] facts@[k]) < tbl.rows@.len(),
            i <= facts@.len(),
            m.queue@ == base + marked_sources(tbl, syms@, facts@.take(i as int)),
            m.seeded == old(m).seeded,
        decreases facts@.len() - i,
    {
        assert(facts@.take(i + 1).drop_last() =~= facts@.take(i as int));
        assert(facts@.take(i + 1).last() == facts@[i as int]);
        let f = facts[i];
        if contains_id_in(syms, tbl.rows[f as usize].rel) {
            m.queue.push(f);
        }
        i = i + 1;
    }
    assert(facts@.take(facts@.len() as int) =~= facts@);
}

proof fn lemma_marked_sources(tbl: &FactTable, syms: Seq<u32>, facts: Seq<u32>)
    ensures
        forall|f: u32| facts.contains(f) && syms.contains(tbl.rows@[f as int].rel) ==> #[trigger] marked_sources(
            tbl,
            syms,
            facts,
        ).contains(f),
    decreases facts.len(),
{
    if facts.len() > 0 {
        let p = facts.drop_last();
        lemma_marked_sources(tbl, syms, p);
        assert forall|f: u32| facts.contains(f) && syms.contains(tbl.rows@[f as int].rel) implies #[trigger] marked_sources(
            tbl,
            syms,
            facts,
        ).contains(f) by {
            let k = choose|k: int| 0 <= k < facts.len() && facts[k] == f;
            if k < facts.len() - 1 {
                assert(p[k] == f);
                assert(p.contains(f));
                assert(marked_sources(tbl, syms, p).contains(f));
                let e = choose|e: int| 0 <= e < marked_sources(tbl, syms, p).len() && marked_sources(tbl, syms, p)[e] == f;
                let ms = marked_sources(tbl, syms, facts);
                assert(facts.drop_last() == p);
                if syms.contains(tbl.rows@[facts.last() as int].rel) {
                    assert(ms == marked_sources(tbl, syms, p).push(facts.last()));
                } else {
                    assert(ms == marked_sources(tbl, syms, p));
                }
                assert(ms[e] == f);
            } else {
                let ms = marked_sources(tbl, syms, facts);
                assert(ms[ms.len() - 1] == f);
            }
        }
    }
}

/// Feeding the stack keeps it complete: when facts join the KB and those
/// of marked relations are pushed, every edge lacking its mirror still
/// waits on the stack.
pub proof fn lemma_enqueue_keeps_covered(tbl: &FactTable, kb: Seq<u32>, syms: Seq<u32>, q: Seq<u32>, facts: Seq<u32>)
    requires
        covered(tbl, kb, syms, q),
    ensures
        covered(tbl, kb + facts, syms, q + marked_sources(tbl, syms, facts)),
{
    let k1 = kb + facts;
    let q1 = q + marked_sources(tbl, syms, facts);
    lemma_marked_sources(tbl, syms, facts);
    assert forall|f: u32| #[trigger] pending(tbl, k1, syms, f) implies q1.contains(f) by {
        crate::text::lemma_concat_contains(kb, facts, f);
        crate::text::lemma_concat_contains(q, marked_sources(tbl, syms, facts), f);
        if kb.contains(f) {
            assert(held_mirror(tbl, kb, f) is None) by {
                match probe(tbl, tbl.rows@[f as int].rel, swapped(tbl, f)) {
                    Some(x) => {
                        crate::text::lemma_concat_contains(kb, facts, x);
                    },
                    None => {},
                }
            }
            assert(pending(tbl, kb, syms, f));
        }
    }
}

/// Whether some marked edge `(R a b)` with `a ≠ b` lacks its mirror: the
/// stall check's question, asked without writing anything.
pub fn has_pending_mirror(tbl: &FactTable, kb: &Vec<u32>, syms: &[u32]) -> (r: bool)
    requires
        tbl.wf(),
        tbl.rows@.len() <= u32::MAX,
        kb_ok(tbl, kb@),
    ensures
        r == !mirror_closed(tbl, kb@, syms@),
{
    let mut i: usize = 0;
    while i < kb.len()
        invariant
            tbl.wf(),
            tbl.rows@.len() <= u32::MAX,
            kb_ok(tbl, kb@),
            i <= kb@.len(),
            forall|k: int| 0 <= k < i ==> !pending(tbl, kb@, syms@, #[trigger] kb@[k]),
        decreases kb@.len() - i,
    {
        let f = kb[i];
        assert(kb@[i as int] < tbl.rows@.len());
        let row = &tbl.rows[f as usize];
        if contains_id_in(syms, row.rel) && row.args.len() == 2 && !same_arg(row.args[0], row.args[1]) {
            assert(swapped(tbl, f) =~= seq![row.args@[1], row.args@[0]]);
            let lacks = match probe_pair(tbl, row.rel, row.args[1], row.args[0]) {
                Some(mm) => !holds_in(kb, mm),
                None => true,
            };
            if lacks {
                assert(kb@.contains(f));
                assert(pending(tbl, kb@, syms@, f));
                return true;
            }
        }
        i = i + 1;
    }
    assert forall|f: u32| !pending(tbl, kb@, syms@, f) by {
        if pending(tbl, kb@, syms@, f) {
            let k = choose|k: int| 0 <= k < kb@.len() && kb@[k] == f;
            assert(!pending(tbl, kb@, syms@, kb@[k]));
        }
    }
    false
}

// ── Narration ────────────────────────────────────────────────────────

/// A `mirror` event's fields: the relation, the source and the mirror
/// written, as s-expressions.
pub open spec fn mirror_fields(tbl: &FactTable, w: MirrorWrite) -> Seq<char> {
    let a = with_key(seq!['{'], "relation"@) + json_str(tbl.name(w.rel));
    let b = with_key(a, "src"@) + json_str(tbl.fact_text(w.src as int));
    with_key(b, "derived"@) + json_str(tbl.fact_text(w.stored as int))
}

/// Narrate one mirror write, when recording.
pub fn narrate(events: &mut Events, tbl: &FactTable, w: &MirrorWrite) -> (line: Option<String>)
    requires
        old(events).count() < u64::MAX,
        tbl.wf(),
        w.rel < tbl.names@.len(),
        w.src < tbl.rows@.len(),
        w.stored < tbl.rows@.len(),
    ensures
        final(events).is_on() == old(events).is_on(),
        final(events).level_of() == old(events).level_of(),
        old(events).is_on() ==> final(events).count() == old(events).count() + 1 && line is Some
            && line->0@ == event_text("mirror"@, old(events).count(), mirror_fields(tbl, *w)),
        !old(events).is_on() ==> final(events).count() == old(events).count() && line is None,
{
    if !events.on() {
        return None;
    }
    let src = sexpr(tbl, w.src);
    let derived = sexpr(tbl, w.stored);
    let mut l = Line::new();
    l.str("relation", tbl.names[w.rel as usize].as_str());
    l.str("src", src.as_str());
    l.str("derived", derived.as_str());
    events.emit("mirror", &l)
}

} // verus!
