//! The saturation-commutativity sanity check.
//!
//! For an alive size-`k` commitment `C`, every `(k−1)`-subset parent path
//! — saturate the parent, add the missing hypothesis, saturate again —
//! must reach the same knowledge base as the direct path. The paths are
//! compared by exact state-key equality, so a digest collision can never
//! mask a real violation; the digests in the report are display only.
//!
//! The saturations are the engine's; this module holds the check itself:
//! which parents there are, which of them disagree, and the report.
use vstd::prelude::*;

use crate::apriori::{lemma_canonical_unique, strictly_sorted};
use crate::canon::{same_key, state_digest, state_key};
use crate::facts::{Arg, FactTable};
use crate::nogoods::canonical_of;
use crate::text::{decimal, hex_char, hex_digit, join_with, push_char, push_decimal, push_repr, py_repr};

verus! {

// ── Python reprs ─────────────────────────────────────────────────────

/// `n`'s hexadecimal digits, lower case, no leading zeros.
pub open spec fn hex_digits(n: nat) -> Seq<char>
    decreases n,
{
    if n < 16 {
        seq![hex_digit(n)]
    } else {
        hex_digits(n / 16).push(hex_digit(n % 16))
    }
}

/// `n` in Python's `#x` form: `0x` and the hexadecimal digits.
pub open spec fn hex_text(n: u64) -> Seq<char> {
    seq!['0', 'x'] + hex_digits(n as nat)
}

/// The `repr` of fact `f` as a Python value: `(relation, (args…))`, a
/// name quoted, a number in decimal, a nested fact as its own tuple.
pub open spec fn py_fact(tbl: &FactTable, f: int) -> Seq<char>
    decreases f, tbl.rows@[f].args@.len() + 1,
{
    if 0 <= f < tbl.rows@.len() {
        let n = tbl.rows@[f].args@.len();
        seq!['('] + py_repr(tbl.name(tbl.rows@[f].rel)) + seq![',', ' ', '('] + py_args(tbl, f, n as int) + (if n
            == 1 {
            seq![',']
        } else {
            Seq::<char>::empty()
        }) + seq![')', ')']
    } else {
        Seq::empty()
    }
}

/// The first `k` arguments of fact `f`, as Python values, comma-separated.
pub open spec fn py_args(tbl: &FactTable, f: int, k: int) -> Seq<char>
    decreases f, k,
{
    if 0 <= f < tbl.rows@.len() && 0 < k <= tbl.rows@[f].args@.len() {
        let a = tbl.rows@[f].args@[k - 1];
        let last = match a {
            Arg::Sym(s) => py_repr(tbl.name(s)),
            Arg::Int(i) => decimal(i as int),
            Arg::Fact(g) => if (g as int) < f {
                py_fact(tbl, g as int)
            } else {
                Seq::empty()
            },
        };
        if k == 1 {
            last
        } else {
            py_args(tbl, f, k - 1) + seq![',', ' '] + last
        }
    } else {
        Seq::empty()
    }
}

/// A set of facts as a Python tuple of fact tuples.
pub open spec fn set_text(tbl: &FactTable, ids: Seq<u32>) -> Seq<char> {
    seq!['('] + join_with(ids.map_values(|f: u32| py_fact(tbl, f as int)), seq![',', ' ']) + (if ids.len() == 1 {
        seq![',']
    } else {
        Seq::<char>::empty()
    }) + seq![')']
}

fn push_hex_digits(out: &mut String, n: u64)
    ensures
        final(out)@ == old(out)@ + hex_digits(n as nat),
    decreases n,
{
    if n < 16 {
        push_char(out, hex_char(n as u32));
    } else {
        push_hex_digits(out, n / 16);
        push_char(out, hex_char((n % 16) as u32));
    }
}

fn push_hex(out: &mut String, n: u64)
    ensures
        final(out)@ == old(out)@ + hex_text(n),
{
    push_char(out, '0');
    push_char(out, 'x');
    push_hex_digits(out, n);
    assert(out@ =~= old(out)@ + hex_text(n));
}

fn push_py_fact(tbl: &FactTable, f: u32, out: &mut String)
    requires
        tbl.wf(),
        f < tbl.rows@.len(),
    ensures
        final(out)@ == old(out)@ + py_fact(tbl, f as int),
    decreases f,
{
    let ghost fi = f as int;
    assert(tbl.row_ok(fi));
    let row = &tbl.rows[f as usize];
    let ghost head = old(out)@;
    push_char(out, '(');
    push_repr(out, tbl.names[row.rel as usize].as_str());
    push_char(out, ',');
    push_char(out, ' ');
    push_char(out, '(');
    let ghost start = out@;
    let n = row.args.len();
    let mut k: usize = 0;
    while k < n
        invariant
            tbl.wf(),
            f < tbl.rows@.len(),
            fi == f as int,
            *row == tbl.rows@[fi],
            n == row.args@.len(),
            k <= n,
            out@ == start + py_args(tbl, fi, k as int),
        decreases n - k,
    {
        assert(tbl.row_ok(fi));
        let a = row.args[k];
        assert(tbl.arg_ok(a, fi));
        if k > 0 {
            push_char(out, ',');
            push_char(out, ' ');
        }
        match a {
            Arg::Sym(s) => push_repr(out, tbl.names[s as usize].as_str()),
            Arg::Int(i) => push_decimal(out, i),
            Arg::Fact(g) => push_py_fact(tbl, g, out),
        }
        proof {
            if k == 0 {
                assert(out@ =~= start + py_args(tbl, fi, 1));
            } else {
                assert(out@ =~= start + py_args(tbl, fi, k + 1));
            }
        }
        k = k + 1;
    }
    if n == 1 {
        push_char(out, ',');
    }
    push_char(out, ')');
    push_char(out, ')');
    assert(out@ =~= head + py_fact(tbl, fi));
}

fn push_set(tbl: &FactTable, ids: &[u32], out: &mut String)
    requires
        tbl.wf(),
        forall|i: int| 0 <= i < ids@.len() ==> (#[trigger] ids@[i]) < tbl.rows@.len(),
    ensures
        final(out)@ == old(out)@ + set_text(tbl, ids@),
{
    let ghost items = ids@.map_values(|f: u32| py_fact(tbl, f as int));
    let ghost head = old(out)@;
    push_char(out, '(');
    let ghost start = out@;
    let n = ids.len();
    let mut i: usize = 0;
    while i < n
        invariant
            tbl.wf(),
            forall|i: int| 0 <= i < ids@.len() ==> (#[trigger] ids@[i]) < tbl.rows@.len(),
            n == ids@.len(),
            items == ids@.map_values(|f: u32| py_fact(tbl, f as int)),
            i <= n,
            out@ == start + join_with(items.take(i as int), seq![',', ' ']),
        decreases n - i,
    {
        assert(items.take(i + 1).drop_last() =~= items.take(i as int));
        if i > 0 {
            push_char(out, ',');
            push_char(out, ' ');
        }
        push_py_fact(tbl, ids[i], out);
        proof {
            if i == 0 {
                assert(out@ =~= start + join_with(items.take(1), seq![',', ' ']));
            } else {
                assert(items.take(i + 1).last() == items[i as int]);
                assert(out@ =~= start + join_with(items.take(i + 1), seq![',', ' ']));
            }
        }
        i = i + 1;
    }
    assert(items.take(n as int) =~= items);
    if n == 1 {
        push_char(out, ',');
    }
    push_char(out, ')');
    assert(out@ =~= head + set_text(tbl, ids@));
}

// ── The check ────────────────────────────────────────────────────────

/// Two lattice paths to the same commitment reached knowledge bases with
/// distinct state keys.
pub struct SanityError {
    pub commitment: Vec<u32>,
    pub direct_state_key: Vec<u32>,
    /// Only the mismatching parents, each with the key its path reached.
    pub parent_state_keys: Vec<(Vec<u32>, Vec<u32>)>,
    /// The report, rendered when the check found the mismatch.
    pub rendered: String,
}

impl SanityError {
    /// The report's text.
    pub open spec fn text(&self) -> Seq<char> {
        self.rendered@
    }

    /// The report: the commitment, the direct path's digest, and each
    /// mismatching parent with the digest its path reached.
    pub fn message(&self) -> (s: &str)
        ensures
            s@ == self.text(),
    {
        self.rendered.as_str()
    }
}

/// The parent path that leaves out the `i`-th member.
pub open spec fn parent_at(c: Seq<u32>, i: int) -> Seq<u32> {
    c.take(i) + c.skip(i + 1)
}

/// The parents among the first `k` that were alive and whose path reached
/// a state other than `key`, each with the state it reached.
pub open spec fn mismatches_upto(c: Seq<u32>, key: Seq<u32>, reached: Seq<Option<Vec<u32>>>, k: int) -> Seq<
    (Seq<u32>, Seq<u32>),
>
    decreases k,
{
    if k <= 0 {
        Seq::empty()
    } else {
        let prev = mismatches_upto(c, key, reached, k - 1);
        match reached[k - 1] {
            Some(f) => if canonical_of(f@) != key {
                prev.push((parent_at(c, k - 1), canonical_of(f@)))
            } else {
                prev
            },
            None => prev,
        }
    }
}

pub open spec fn pair_views(v: Seq<(Vec<u32>, Vec<u32>)>) -> Seq<(Seq<u32>, Seq<u32>)> {
    v.map_values(|p: (Vec<u32>, Vec<u32>)| (p.0@, p.1@))
}

/// One mismatching parent's line of the report.
pub open spec fn parent_line(tbl: &FactTable, parent: Seq<u32>, digest: u64) -> Seq<char> {
    "    "@ + set_text(tbl, parent) + " -> "@ + hex_text(digest)
}

/// The report, given the digests of the direct key and of each mismatching
/// parent's key.
pub open spec fn report_text(
    tbl: &FactTable,
    c: Seq<u32>,
    mism: Seq<(Seq<u32>, Seq<u32>)>,
    direct_digest: u64,
    digests: Seq<u64>,
) -> Seq<char> {
    "Saturation commutativity violated for "@ + set_text(tbl, c) + "\n  direct state_key digest = "@ + hex_text(
        direct_digest,
    ) + "\n  parent paths:\n"@ + join_with(
        Seq::new(mism.len(), |i: int| parent_line(tbl, mism[i].0, digests[i])),
        "\n"@,
    )
}

/// The commitment without its `i`-th member.
pub fn parent(commitment: &[u32], i: usize) -> (p: Vec<u32>)
    requires
        i < commitment@.len(),
    ensures
        p@ == parent_at(commitment@, i as int),
{
    let mut out: Vec<u32> = Vec::new();
    let mut j: usize = 0;
    while j < commitment.len()
        invariant
            i < commitment@.len(),
            j <= commitment@.len(),
            out@ == (if j <= i {
                commitment@.take(j as int)
            } else {
                commitment@.take(i as int) + commitment@.subrange(i + 1, j as int)
            }),
        decreases commitment@.len() - j,
    {
        if j != i {
            out.push(commitment[j]);
        }
        proof {
            if j < i {
                assert(commitment@.take(j + 1) =~= commitment@.take(j as int).push(commitment@[j as int]));
            } else if j == i {
                assert(commitment@.subrange(i + 1, j + 1) =~= Seq::<u32>::empty());
                assert(out@ =~= commitment@.take(i as int) + commitment@.subrange(i + 1, j + 1));
            } else {
                assert(commitment@.subrange(i + 1, j + 1) =~= commitment@.subrange(i + 1, j as int).push(
                    commitment@[j as int],
                ));
                assert(out@ =~= commitment@.take(i as int) + commitment@.subrange(i + 1, j + 1));
            }
        }
        j = j + 1;
    }
    assert(commitment@.subrange(i + 1, commitment@.len() as int) =~= commitment@.skip(i + 1));
    out
}

proof fn lemma_parent_within(c: Seq<u32>, i: int, bound: nat)
    requires
        0 <= i < c.len(),
        forall|k: int| 0 <= k < c.len() ==> (#[trigger] c[k]) < bound,
    ensures
        forall|k: int| 0 <= k < parent_at(c, i).len() ==> (#[trigger] parent_at(c, i)[k]) < bound,
{
    assert forall|k: int| 0 <= k < parent_at(c, i).len() implies (#[trigger] parent_at(c, i)[k]) < bound by {
        if k < i {
            assert(parent_at(c, i)[k] == c[k]);
        } else {
            assert(parent_at(c, i)[k] == c[k + 1]);
        }
    }
}

/// The state key of a fact list holding each fact once is its canonical
/// set.
fn key_of(facts: &Vec<u32>) -> (key: Vec<u32>)
    requires
        facts@.no_duplicates(),
    ensures
        key@ == canonical_of(facts@),
{
    let key = state_key(facts);
    proof {
        assert(strictly_sorted(key@) && forall|x: u32| key@.contains(x) <==> facts@.contains(x));
        let c = canonical_of(facts@);
        lemma_canonical_unique(key@, c);
    }
    key
}

/// The sanity check for one commitment, given what the engine's paths
/// reached: `direct` is the direct path's facts (`None` when it died before
/// saturation), and `reached[i]` the facts of the path through the parent
/// without member `i` once that member is added back and saturated (`None`
/// when that parent is not alive, so the path does not exist).
///
/// No report below size two, none for a direct path dead before
/// saturation, and none when every alive parent agrees; otherwise the
/// mismatching parents, in member order, with the state each reached.
pub fn check_commutativity(
    tbl: &FactTable,
    commitment: &[u32],
    direct: Option<&Vec<u32>>,
    reached: &[Option<Vec<u32>>],
) -> (r: Option<SanityError>)
    requires
        tbl.wf(),
        forall|k: int| 0 <= k < commitment@.len() ==> (#[trigger] commitment@[k]) < tbl.rows@.len(),
        direct matches Some(d) ==> d@.no_duplicates(),
        forall|k: int| 0 <= k < reached@.len() ==> (#[trigger] reached@[k] matches Some(f) ==> f@.no_duplicates()),
        commitment@.len() >= 2 && direct is Some ==> reached@.len() == commitment@.len(),
    ensures
        commitment@.len() < 2 || direct is None ==> r is None,
        commitment@.len() >= 2 && direct is Some ==> {
            let key = canonical_of(direct->0@);
            let mism = mismatches_upto(commitment@, key, reached@, commitment@.len() as int);
            &&& (r is None <==> mism.len() == 0)
            &&& r matches Some(e) ==> {
                &&& e.commitment@ == commitment@
                &&& e.direct_state_key@ == key
                &&& pair_views(e.parent_state_keys@) == mism
                &&& exists|dd: u64, ds: Seq<u64>|
                    ds.len() == mism.len() && e.text() == report_text(tbl, commitment@, mism, dd, ds)
            }
        },
{
    if commitment.len() < 2 {
        return None;
    }
    let d = match direct {
        None => {
            return None;
        },
        Some(d) => d,
    };
    let direct_key = key_of(d);
    let ghost key = canonical_of(d@);
    let mut mism: Vec<(Vec<u32>, Vec<u32>)> = Vec::new();
    let n = commitment.len();
    let mut i: usize = 0;
    while i < n
        invariant
            n == commitment@.len(),
            n == reached@.len(),
            forall|k: int| 0 <= k < reached@.len() ==> (#[trigger] reached@[k] matches Some(f) ==> f@.no_duplicates()),
            direct_key@ == key,
            i <= n,
            pair_views(mism@) == mismatches_upto(commitment@, key, reached@, i as int),
        decreases n - i,
    {
        let ghost before = pair_views(mism@);
        match &reached[i] {
            None => {},
            Some(f) => {
                assert(reached@[i as int] matches Some(g) ==> g@.no_duplicates());
                let k = key_of(f);
                if !same_key(&k, &direct_key) {
                    let p = parent(commitment, i);
                    mism.push((p, k));
                    assert(pair_views(mism@) =~= before.push((parent_at(commitment@, i as int), canonical_of(f@))));
                }
            },
        }
        i = i + 1;
    }
    if mism.len() == 0 {
        return None;
    }
    let ghost mv = pair_views(mism@);
    proof {
        lemma_mismatch_parents(commitment@, key, reached@, n as int, tbl.rows@.len());
    }
    let dd = state_digest(direct_key.as_slice());
    let mut out = String::new();
    out.append("Saturation commutativity violated for ");
    push_set(tbl, commitment, &mut out);
    out.append("\n  direct state_key digest = ");
    push_hex(&mut out, dd);
    out.append("\n  parent paths:\n");
    let ghost head = out@;
    let ghost mut ds: Seq<u64> = Seq::empty();
    let m = mism.len();
    let mut j: usize = 0;
    while j < m
        invariant
            tbl.wf(),
            m == mism@.len(),
            mv == pair_views(mism@),
            forall|q: int, k: int|
                0 <= q < mv.len() && 0 <= k < mv[q].0.len() ==> (#[trigger] mv[q].0[k]) < tbl.rows@.len(),
            j <= m,
            ds.len() == j,
            out@ == head + join_with(
                Seq::new(j as nat, |q: int| parent_line(tbl, mv[q].0, ds[q])),
                "\n"@,
            ),
        decreases m - j,
    {
        let ghost prev = Seq::new(j as nat, |q: int| parent_line(tbl, mv[q].0, ds[q]));
        if j > 0 {
            out.append("\n");
        }
        let ghost line_start = out@;
        out.append("    ");
        assert(mv[j as int].0 == mism@[j as int].0@);
        push_set(tbl, mism[j].0.as_slice(), &mut out);
        out.append(" -> ");
        let pd = state_digest(mism[j].1.as_slice());
        push_hex(&mut out, pd);
        assert(out@ =~= line_start + parent_line(tbl, mv[j as int].0, pd));
        proof {
            ds = ds.push(pd);
            let next = Seq::new((j + 1) as nat, |q: int| parent_line(tbl, mv[q].0, ds[q]));
            assert(next.drop_last() =~= prev);
            assert(next.last() == parent_line(tbl, mv[j as int].0, pd));
            if j == 0 {
                assert(out@ =~= head + join_with(next, "\n"@));
            } else {
                assert(out@ =~= head + join_with(next, "\n"@));
            }
        }
        j = j + 1;
    }
    let mut c: Vec<u32> = Vec::new();
    let mut q: usize = 0;
    while q < commitment.len()
        invariant
            q <= commitment@.len(),
            c@ == commitment@.take(q as int),
        decreases commitment@.len() - q,
    {
        c.push(commitment[q]);
        assert(commitment@.take(q + 1) =~= commitment@.take(q as int).push(commitment@[q as int]));
        q = q + 1;
    }
    assert(commitment@.take(commitment@.len() as int) =~= commitment@);
    let e = SanityError { commitment: c, direct_state_key: direct_key, parent_state_keys: mism, rendered: out };
    assert(Seq::new(m as nat, |q: int| parent_line(tbl, mv[q].0, ds[q])) =~= Seq::new(
        mv.len(),
        |q: int| parent_line(tbl, mv[q].0, ds[q]),
    ));
    assert(e.text() == report_text(tbl, commitment@, mv, dd, ds));
    Some(e)
}

/// Every mismatching parent is made of the commitment's members.
proof fn lemma_mismatch_parents(c: Seq<u32>, key: Seq<u32>, reached: Seq<Option<Vec<u32>>>, k: int, bound: nat)
    requires
        0 <= k <= c.len(),
        forall|q: int| 0 <= q < c.len() ==> (#[trigger] c[q]) < bound,
    ensures
        forall|q: int, x: int|
            0 <= q < mismatches_upto(c, key, reached, k).len() && 0 <= x < mismatches_upto(c, key, reached, k)[q].0.len()
                ==> (#[trigger] mismatches_upto(c, key, reached, k)[q].0[x]) < bound,
    decreases k,
{
    if k > 0 {
        lemma_mismatch_parents(c, key, reached, k - 1, bound);
        lemma_parent_within(c, k - 1, bound);
        let prev = mismatches_upto(c, key, reached, k - 1);
        let cur = mismatches_upto(c, key, reached, k);
        assert forall|q: int, x: int| 0 <= q < cur.len() && 0 <= x < cur[q].0.len() implies (#[trigger] cur[q].0[x])
            < bound by {
            if q < prev.len() {
                assert(cur[q] == prev[q]);
                assert(prev[q].0[x] < bound);
            } else {
                assert(cur[q].0 == parent_at(c, k - 1));
            }
        }
    }
}

} // verus!
