//! Closed relations: a declared relation no rule can positively conclude
//! gets a `(__closed__ R)` marker, so the hypothesis generator knows its
//! extent is whatever the program stated.
use vstd::prelude::*;

use rustc_hash::FxHashSet;

use crate::facts::{intern_fact, unique_rows, Arg, FactTable};
use crate::fxset::{contains_id, empty_set, insert_id};
use crate::mirror::{holds_in, kb_ok};
use crate::oblgen::RelationDecl;

verus! {

/// The kernel's closed-relation trigger. Per the dunder convention the
/// kernel keys on `__closed__`, not the bare `closed`, a free user name.
pub const CLOSED: &'static str = "__closed__";

/// The relation is to be closed: a declared domain relation (it has a
/// signature) that no rule concludes and that carries no marker yet.
pub open spec fn closes(r: RelationDecl, producible: Set<u32>, already: Set<u32>) -> bool {
    r.arity != 0 && !producible.contains(r.name) && !already.contains(r.name)
}

/// The names of the first `k` declared relations to close, in registry
/// order.
pub open spec fn closing_upto(declared: Seq<RelationDecl>, producible: Set<u32>, already: Set<u32>, k: int) -> Seq<u32>
    decreases k,
{
    if k <= 0 || k > declared.len() {
        Seq::empty()
    } else {
        let prev = closing_upto(declared, producible, already, k - 1);
        if closes(declared[k - 1], producible, already) {
            prev.push(declared[k - 1].name)
        } else {
            prev
        }
    }
}

/// `emit_closed`'s decision: the declared relations to mark closed, in
/// registry order — each one no rule can positively conclude and not
/// already marked. The caller writes one `(__closed__ R)` fact per name.
pub fn closing(declared: &[RelationDecl], producible: &FxHashSet<u32>, already: &FxHashSet<u32>) -> (newly: Vec<u32>)
    ensures
        newly@ == closing_upto(declared@, producible@, already@, declared@.len() as int),
{
    let mut newly: Vec<u32> = Vec::new();
    let mut i: usize = 0;
    while i < declared.len()
        invariant
            i <= declared@.len(),
            newly@ == closing_upto(declared@, producible@, already@, i as int),
        decreases declared@.len() - i,
    {
        let r = declared[i];
        if r.arity != 0 && !contains_id(producible, r.name) && !contains_id(already, r.name) {
            newly.push(r.name);
        }
        i = i + 1;
    }
    newly
}

proof fn lemma_nothing_closes(declared: Seq<RelationDecl>, producible: Set<u32>, already: Set<u32>, k: int)
    requires
        0 <= k <= declared.len(),
        forall|i: int| 0 <= i < k ==> !closes(#[trigger] declared[i], producible, already),
    ensures
        closing_upto(declared, producible, already, k) == Seq::<u32>::empty(),
    decreases k,
{
    if k > 0 {
        lemma_nothing_closes(declared, producible, already, k - 1);
    }
}

/// Closing is idempotent: once the markers of one pass are written, a
/// second pass over the same declarations closes nothing new.
pub proof fn lemma_second_pass_closes_nothing(declared: Seq<RelationDecl>, producible: Set<u32>, already: Set<u32>)
    ensures
        closing_upto(
            declared,
            producible,
            already + closing_upto(declared, producible, already, declared.len() as int).to_set(),
            declared.len() as int,
        ) == Seq::<u32>::empty(),
{
    let n = declared.len() as int;
    let first = closing_upto(declared, producible, already, n);
    let marked = already + first.to_set();
    assert forall|i: int| 0 <= i < n implies !closes(#[trigger] declared[i], producible, marked) by {
        if closes(declared[i], producible, already) {
            lemma_closed_listed(declared, producible, already, n, i);
            assert(first.to_set().contains(declared[i].name));
        }
    }
    lemma_nothing_closes(declared, producible, marked, n);
}

proof fn lemma_closed_listed(declared: Seq<RelationDecl>, producible: Set<u32>, already: Set<u32>, k: int, i: int)
    requires
        0 <= i < k <= declared.len(),
        closes(declared[i], producible, already),
    ensures
        closing_upto(declared, producible, already, k).contains(declared[i].name),
    decreases k,
{
    let prev = closing_upto(declared, producible, already, k - 1);
    if i < k - 1 {
        lemma_closed_listed(declared, producible, already, k - 1, i);
        if closes(declared[k - 1], producible, already) {
            crate::text::lemma_push_contains(prev, declared[k - 1].name, declared[i].name);
        }
    } else {
        crate::text::lemma_push_contains(prev, declared[k - 1].name, declared[i].name);
    }
}

/// The relations the KB's markers already close: each marker fact's
/// first argument, when it is a name.
pub open spec fn marked_closed(tbl: &FactTable, kb: Seq<u32>, closed: u32) -> Set<u32> {
    Set::new(
        |r: u32|
            exists|k: int|
                0 <= k < kb.len() && #[trigger] tbl.rows@[kb[k] as int].rel == closed && tbl.rows@[kb[k] as int].args@.len()
                    > 0 && tbl.rows@[kb[k] as int].args@[0] == Arg::Sym(r),
    )
}

/// Fact `f` is the marker `(closed r)`.
pub open spec fn is_marker(tbl: &FactTable, f: u32, closed: u32, r: u32) -> bool {
    tbl.rows@[f as int].rel == closed && tbl.rows@[f as int].args@ == seq![Arg::Sym(r)]
}

/// Each of the first `j` names has a marker among the KB's facts.
pub open spec fn all_marked(tbl: &FactTable, kb: Seq<u32>, closed: u32, names: Seq<u32>, j: int) -> bool {
    forall|i: int| #![trigger names[i]] 0 <= i < j ==> exists|k: int|
        0 <= k < kb.len() && is_marker(tbl, #[trigger] kb[k], closed, names[i])
}

/// Each KB fact from position `from` on is the marker of one of the first
/// `j` names.
pub open spec fn only_markers(tbl: &FactTable, kb: Seq<u32>, from: int, closed: u32, names: Seq<u32>, j: int) -> bool {
    forall|k: int| #![trigger kb[k]] from <= k < kb.len() ==> exists|i: int|
        0 <= i < j && is_marker(tbl, kb[k], closed, #[trigger] names[i])
}

/// Write a `(__closed__ R)` marker for every declared relation no rule can
/// positively conclude and no marker closes yet; the newly closed names, in
/// registry order. Idempotent: a relation already marked is left alone.
/// `closed` is the marker's symbol and `producible` the relations some
/// compiled rule plan positively asserts.
pub fn emit_closed(
    tbl: &mut FactTable,
    kb: &mut Vec<u32>,
    closed: u32,
    declared: &[RelationDecl],
    producible: &FxHashSet<u32>,
) -> (newly: Vec<u32>)
    requires
        old(tbl).wf(),
        unique_rows(old(tbl)),
        kb_ok(old(tbl), old(kb)@),
        closed < old(tbl).names@.len(),
        forall|k: int| 0 <= k < declared@.len() ==> (#[trigger] declared@[k]).name < old(tbl).names@.len(),
        old(tbl).rows@.len() + declared@.len() < u32::MAX,
    ensures
        newly@ == closing_upto(declared@, producible@, marked_closed(old(tbl), old(kb)@, closed), declared@.len() as int),
        final(tbl).wf(),
        unique_rows(final(tbl)),
        kb_ok(final(tbl), final(kb)@),
        final(tbl).names@ == old(tbl).names@,
        final(tbl).rows@.take(old(tbl).rows@.len() as int) == old(tbl).rows@,
        final(kb)@.take(old(kb)@.len() as int) == old(kb)@,
        all_marked(final(tbl), final(kb)@, closed, newly@, newly@.len() as int),
        only_markers(final(tbl), final(kb)@, old(kb)@.len() as int, closed, newly@, newly@.len() as int),
{
    let ghost t0 = *tbl;
    let ghost k0 = kb@;
    // The names already marked.
    let mut already = empty_set();
    let mut i: usize = 0;
    while i < kb.len()
        invariant
            kb@ == k0,
            *tbl == t0,
            kb_ok(&t0, k0),
            i <= k0.len(),
            forall|r: u32| #[trigger] already@.contains(r) <==> exists|k: int|
                0 <= k < i && #[trigger] t0.rows@[k0[k] as int].rel == closed && t0.rows@[k0[k] as int].args@.len() > 0
                    && t0.rows@[k0[k] as int].args@[0] == Arg::Sym(r),
        decreases k0.len() - i,
    {
        let row = &tbl.rows[kb[i] as usize];
        if row.rel == closed && row.args.len() > 0 {
            match row.args[0] {
                Arg::Sym(r) => {
                    insert_id(&mut already, r);
                },
                _ => {},
            }
        }
        i = i + 1;
    }
    assert(already@ =~= marked_closed(&t0, k0, closed));
    let newly = closing(declared, producible, &already);
    proof {
        lemma_closing_names(declared@, producible@, already@, declared@.len() as int, t0.names@.len());
    }
    let mut j: usize = 0;
    while j < newly.len()
        invariant
            tbl.wf(),
            unique_rows(tbl),
            kb_ok(tbl, kb@),
            tbl.names@ == t0.names@,
            tbl.rows@.take(t0.rows@.len() as int) == t0.rows@,
            t0.rows@.len() <= tbl.rows@.len(),
            tbl.rows@.len() <= t0.rows@.len() + j,
            t0.rows@.len() + declared@.len() < u32::MAX,
            newly@.len() <= declared@.len(),
            closed < t0.names@.len(),
            forall|q: int| 0 <= q < newly@.len() ==> (#[trigger] newly@[q]) < t0.names@.len(),
            kb@.take(k0.len() as int) == k0,
            k0.len() <= kb@.len(),
            j <= newly@.len(),
            all_marked(tbl, kb@, closed, newly@, j as int),
            only_markers(tbl, kb@, k0.len() as int, closed, newly@, j as int),
        decreases newly@.len() - j,
    {
        let name = newly[j];
        let mut args: Vec<Arg> = Vec::new();
        args.push(Arg::Sym(name));
        assert(args@ =~= seq![Arg::Sym(name)]);
        let ghost before_rows = tbl.rows@;
        let ghost before_kb = kb@;
        let ghost before_tbl = *tbl;
        let id = intern_fact(tbl, closed, args);
        proof {
            assert forall|f: int| 0 <= f < before_rows.len() implies #[trigger] tbl.rows@[f] == before_rows[f] by {
                assert(tbl.rows@.take(before_rows.len() as int)[f] == tbl.rows@[f]);
            }
            assert(tbl.rows@.take(t0.rows@.len() as int) =~= t0.rows@) by {
                assert forall|f: int| 0 <= f < t0.rows@.len() implies tbl.rows@[f] == t0.rows@[f] by {
                    assert(before_rows.take(t0.rows@.len() as int)[f] == before_rows[f]);
                    assert(tbl.rows@[f] == before_rows[f]);
                }
            }
        }
        if !holds_in(kb, id) {
            kb.push(id);
            assert(kb@[kb@.len() - 1] == id);
            proof {
                assert(kb@.take(k0.len() as int) =~= k0) by {
                    assert forall|q: int| 0 <= q < k0.len() implies kb@[q] == k0[q] by {
                        assert(before_kb.take(k0.len() as int)[q] == before_kb[q]);
                    }
                }
                assert forall|q: int| 0 <= q < kb@.len() implies (#[trigger] kb@[q]) < tbl.rows@.len() by {
                    if q < before_kb.len() {
                        assert(kb@[q] == before_kb[q]);
                    }
                }
            }
        }
        proof {
            assert(is_marker(tbl, id, closed, name));
            assert forall|i: int| #![trigger newly@[i]] 0 <= i < j + 1 implies exists|k: int|
                0 <= k < kb@.len() && is_marker(tbl, #[trigger] kb@[k], closed, newly@[i]) by {
                if i < j {
                    let k = choose|k: int|
                        0 <= k < before_kb.len() && is_marker(&before_tbl, #[trigger] before_kb[k], closed, newly@[i]);
                    assert(kb@[k] == before_kb[k]);
                    assert(before_kb[k] < before_rows.len());
                    assert(tbl.rows@[before_kb[k] as int] == before_rows[before_kb[k] as int]);
                    assert(is_marker(tbl, kb@[k], closed, newly@[i]));
                } else {
                    assert(kb@.contains(id));
                    let k = choose|k: int| 0 <= k < kb@.len() && kb@[k] == id;
                    assert(is_marker(tbl, kb@[k], closed, newly@[i]));
                }
            }
            assert forall|k: int| #![trigger kb@[k]] k0.len() <= k < kb@.len() implies exists|i: int|
                0 <= i < j + 1 && is_marker(tbl, kb@[k], closed, #[trigger] newly@[i]) by {
                if k < before_kb.len() {
                    let i = choose|i: int| 0 <= i < j && is_marker(&before_tbl, before_kb[k], closed, #[trigger] newly@[i]);
                    assert(kb@[k] == before_kb[k]);
                    assert(before_kb[k] < before_rows.len());
                    assert(tbl.rows@[before_kb[k] as int] == before_rows[before_kb[k] as int]);
                    assert(is_marker(tbl, kb@[k], closed, newly@[i]));
                } else {
                    assert(kb@[k] == id);
                    assert(is_marker(tbl, kb@[k], closed, newly@[j as int]));
                }
            }
        }
        j = j + 1;
    }
    newly
}

/// The names closing lists are declared ones, no more of them than
/// declared.
proof fn lemma_closing_names(declared: Seq<RelationDecl>, producible: Set<u32>, already: Set<u32>, k: int, bound: nat)
    requires
        0 <= k <= declared.len(),
        forall|i: int| 0 <= i < declared.len() ==> (#[trigger] declared[i]).name < bound,
    ensures
        closing_upto(declared, producible, already, k).len() <= k,
        forall|q: int|
            0 <= q < closing_upto(declared, producible, already, k).len() ==> #[trigger] closing_upto(
                declared,
                producible,
                already,
                k,
            )[q] < bound,
    decreases k,
{
    if k > 0 {
        lemma_closing_names(declared, producible, already, k - 1, bound);
        let prev = closing_upto(declared, producible, already, k - 1);
        let cur = closing_upto(declared, producible, already, k);
        assert forall|q: int| 0 <= q < cur.len() implies #[trigger] cur[q] < bound by {
            if q < prev.len() {
                assert(cur[q] == prev[q]);
            } else {
                assert(declared[k - 1].name == cur[q]);
            }
        }
    }
}

} // verus!
