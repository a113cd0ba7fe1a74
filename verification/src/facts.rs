//! The interned facts, as plain values: every fact is a row of a table —
//! its relation and its arguments — and a symbol is an index into the
//! table of names. A nested fact is interned before any fact that holds
//! it, which is what makes a walk over one terminate.
use vstd::prelude::*;

use crate::text::decimal;

verus! {

/// One argument: a name, a number, or a nested fact.
#[derive(Clone, Copy, PartialEq, Eq, Debug)]
pub enum Arg {
    Sym(u32),
    Int(i64),
    Fact(u32),
}

/// One interned fact.
pub struct Row {
    pub rel: u32,
    pub args: Vec<Arg>,
}

/// The interner: symbol names by id, and fact rows by id.
pub struct FactTable {
    pub names: Vec<String>,
    pub rows: Vec<Row>,
}

impl FactTable {
    /// Every symbol named, and every nested fact interned before its holder.
    pub open spec fn wf(&self) -> bool {
        forall|f: int|
            0 <= f < self.rows@.len() ==> #[trigger] self.row_ok(f)
    }

    pub open spec fn row_ok(&self, f: int) -> bool {
        &&& self.rows@[f].rel < self.names@.len()
        &&& forall|k: int|
            0 <= k < self.rows@[f].args@.len() ==> self.arg_ok(#[trigger] self.rows@[f].args@[k], f)
    }

    /// An argument of fact `f` refers to a known name or an earlier fact.
    pub open spec fn arg_ok(&self, a: Arg, f: int) -> bool {
        match a {
            Arg::Sym(s) => s < self.names@.len(),
            Arg::Int(_) => true,
            Arg::Fact(g) => g < f,
        }
    }

    pub open spec fn name(&self, s: u32) -> Seq<char> {
        self.names@[s as int]@
    }

    /// Fact `f` as an s-expression: `(rel a b …)`.
    pub open spec fn fact_text(&self, f: int) -> Seq<char>
        decreases f, self.rows@[f].args@.len() + 1,
    {
        if 0 <= f < self.rows@.len() {
            let n = self.rows@[f].args@.len();
            if n == 0 {
                "("@ + self.name(self.rows@[f].rel) + ")"@
            } else {
                "("@ + self.name(self.rows@[f].rel) + " "@ + self.args_text(f, n as int) + ")"@
            }
        } else {
            Seq::empty()
        }
    }

    /// The first `k` arguments of fact `f`, rendered and space-separated.
    pub open spec fn args_text(&self, f: int, k: int) -> Seq<char>
        decreases f, k,
    {
        if 0 <= f < self.rows@.len() && 0 < k <= self.rows@[f].args@.len() {
            let a = self.rows@[f].args@[k - 1];
            let last = match a {
                Arg::Sym(s) => self.name(s),
                Arg::Int(i) => decimal(i as int),
                Arg::Fact(g) => if (g as int) < f {
                    self.fact_text(g as int)
                } else {
                    Seq::empty()
                },
            };
            if k == 1 {
                last
            } else {
                self.args_text(f, k - 1) + " "@ + last
            }
        } else {
            Seq::empty()
        }
    }

    /// An argument rendered: `str(arg)` for a name or a number, the
    /// s-expression for a nested fact.
    pub open spec fn value_text(&self, a: Arg) -> Seq<char> {
        match a {
            Arg::Sym(s) => self.name(s),
            Arg::Int(i) => decimal(i as int),
            Arg::Fact(g) => self.fact_text(g as int),
        }
    }

    /// The names a walk of fact `f`'s arguments meets, in order: each
    /// name, and each nested fact's relation followed by its own walk.
    pub open spec fn walk(&self, f: int, k: int) -> Seq<u32>
        decreases f, k,
    {
        if 0 <= f < self.rows@.len() && 0 < k <= self.rows@[f].args@.len() {
            let prev = self.walk(f, k - 1);
            match self.rows@[f].args@[k - 1] {
                Arg::Sym(s) => prev.push(s),
                Arg::Int(_) => prev,
                Arg::Fact(g) => if (g as int) < f {
                    prev + seq![self.rows@[g as int].rel] + self.walk(
                        g as int,
                        self.rows@[g as int].args@.len() as int,
                    )
                } else {
                    prev
                },
            }
        } else {
            Seq::empty()
        }
    }

    /// The names fact `f`'s arguments reach, at any depth.
    pub open spec fn reached(&self, f: int) -> Seq<u32> {
        self.walk(f, self.rows@[f].args@.len() as int)
    }
}


/// Append the names a walk of fact `f`'s arguments meets.
pub fn walk_into(tbl: &FactTable, f: u32, out: &mut Vec<u32>)
    requires
        tbl.wf(),
        f < tbl.rows@.len(),
    ensures
        final(out)@ == old(out)@ + tbl.reached(f as int),
    decreases f,
{
    let ghost fi = f as int;
    let ghost start = old(out)@;
    let row = &tbl.rows[f as usize];
    let n = row.args.len();
    assert(start + tbl.walk(fi, 0) =~= start);
    let mut k: usize = 0;
    while k < n
        invariant
            tbl.wf(),
            f < tbl.rows@.len(),
            fi == f as int,
            *row == tbl.rows@[fi],
            n == row.args@.len(),
            k <= n,
            out@ == start + tbl.walk(fi, k as int),
        decreases n - k,
    {
        assert(tbl.row_ok(fi));
        let a = row.args[k];
        assert(tbl.arg_ok(a, fi));
        match a {
            Arg::Sym(s) => {
                out.push(s);
                assert(out@ =~= start + tbl.walk(fi, k + 1));
            },
            Arg::Int(_) => {
                assert(out@ =~= start + tbl.walk(fi, k + 1));
            },
            Arg::Fact(g) => {
                assert(tbl.row_ok(g as int));
                out.push(tbl.rows[g as usize].rel);
                walk_into(tbl, g, out);
                assert(out@ =~= start + tbl.walk(fi, k + 1));
            },
        }
        k = k + 1;
    }
}

/// The first symbol from `i` on named `text`.
pub open spec fn lookup_from(names: Seq<String>, text: Seq<char>, i: int) -> Option<u32>
    decreases names.len() - i,
{
    if i < 0 || i >= names.len() {
        None
    } else if names[i]@ == text {
        Some(i as u32)
    } else {
        lookup_from(names, text, i + 1)
    }
}

/// The symbol `text` was interned as, if it was.
pub open spec fn lookup(tbl: &FactTable, text: Seq<char>) -> Option<u32> {
    lookup_from(tbl.names@, text, 0)
}

/// The symbol a name was interned as, if it was.
pub fn sym(tbl: &FactTable, text: &str) -> (r: Option<u32>)
    requires
        tbl.names@.len() <= u32::MAX,
    ensures
        r == lookup(tbl, text@),
        r matches Some(s) ==> s < tbl.names@.len() && tbl.name(s) == text@,
{
    let mut i: usize = 0;
    while i < tbl.names.len()
        invariant
            tbl.names@.len() <= u32::MAX,
            i <= tbl.names@.len(),
            lookup(tbl, text@) == lookup_from(tbl.names@, text@, i as int),
        decreases tbl.names@.len() - i,
    {
        if crate::text::str_eq(tbl.names[i].as_str(), text) {
            return Some(i as u32);
        }
        i = i + 1;
    }
    None
}


impl FactTable {
    /// Is the table well formed: every name a row refers to known, every
    /// nested fact interned before its holder?
    pub fn is_wf(&self) -> (r: bool)
        ensures
            r == self.wf(),
    {
        let mut f: usize = 0;
        while f < self.rows.len()
            invariant
                f <= self.rows@.len(),
                forall|g: int| 0 <= g < f ==> #[trigger] self.row_ok(g),
            decreases self.rows@.len() - f,
        {
            let row = &self.rows[f];
            if row.rel as usize >= self.names.len() {
                assert(!self.row_ok(f as int));
                return false;
            }
            let mut k: usize = 0;
            while k < row.args.len()
                invariant
                    f < self.rows@.len(),
                    *row == self.rows@[f as int],
                    k <= row.args@.len(),
                    forall|q: int| 0 <= q < k ==> self.arg_ok(#[trigger] row.args@[q], f as int),
                decreases row.args@.len() - k,
            {
                let ok = match row.args[k] {
                    Arg::Sym(s) => (s as usize) < self.names.len(),
                    Arg::Int(_) => true,
                    Arg::Fact(g) => (g as usize) < f,
                };
                if !ok {
                    assert(!self.arg_ok(row.args@[k as int], f as int));
                    assert(!self.row_ok(f as int));
                    return false;
                }
                k = k + 1;
            }
            assert(self.row_ok(f as int));
            f = f + 1;
        }
        true
    }
}

// ── Probing and interning ────────────────────────────────────────────

/// No two interned facts are the same fact: the interner's invariant.
pub open spec fn unique_rows(tbl: &FactTable) -> bool {
    forall|i: int, j: int|
        0 <= i < j < tbl.rows@.len() ==> !(#[trigger] tbl.rows@[i].rel == #[trigger] tbl.rows@[j].rel
            && tbl.rows@[i].args@ == tbl.rows@[j].args@)
}

/// The first interned fact from `i` on that is `(rel args…)`.
pub open spec fn probe_from(rows: Seq<Row>, rel: u32, args: Seq<Arg>, i: int) -> Option<u32>
    decreases rows.len() - i,
{
    if i < 0 || i >= rows.len() {
        None
    } else if rows[i].rel == rel && rows[i].args@ == args {
        Some(i as u32)
    } else {
        probe_from(rows, rel, args, i + 1)
    }
}

/// The interned id of `(rel args…)`, if it was interned.
pub open spec fn probe(tbl: &FactTable, rel: u32, args: Seq<Arg>) -> Option<u32> {
    probe_from(tbl.rows@, rel, args, 0)
}

pub(crate) fn same_arg(a: Arg, b: Arg) -> (r: bool)
    ensures
        r == (a == b),
{
    match (a, b) {
        (Arg::Sym(x), Arg::Sym(y)) => x == y,
        (Arg::Int(x), Arg::Int(y)) => x == y,
        (Arg::Fact(x), Arg::Fact(y)) => x == y,
        _ => false,
    }
}

/// The interned id of `(rel a b)`, if it was interned.
pub(crate) fn probe_pair(tbl: &FactTable, rel: u32, a: Arg, b: Arg) -> (r: Option<u32>)
    requires
        tbl.rows@.len() <= u32::MAX,
    ensures
        r == probe(tbl, rel, seq![a, b]),
{
    let ghost args = seq![a, b];
    let mut i: usize = 0;
    while i < tbl.rows.len()
        invariant
            tbl.rows@.len() <= u32::MAX,
            i <= tbl.rows@.len(),
            args == seq![a, b],
            probe(tbl, rel, args) == probe_from(tbl.rows@, rel, args, i as int),
        decreases tbl.rows@.len() - i,
    {
        let row = &tbl.rows[i];
        if row.rel == rel && row.args.len() == 2 && same_arg(row.args[0], a) && same_arg(row.args[1], b) {
            assert(row.args@ =~= args);
            return Some(i as u32);
        }
        assert(!(tbl.rows@[i as int].rel == rel && tbl.rows@[i as int].args@ == args)) by {
            if tbl.rows@[i as int].args@ == args {
                assert(row.args@[0] == a && row.args@[1] == b);
            }
        }
        i = i + 1;
    }
    None
}

pub(crate) proof fn lemma_probe_push(rows: Seq<Row>, x: Row, rel: u32, args: Seq<Arg>, i: int)
    requires
        0 <= i <= rows.len(),
        rows.len() < u32::MAX,
    ensures
        probe_from(rows.push(x), rel, args, i) == (match probe_from(rows, rel, args, i) {
            Some(m) => Some(m),
            None => if x.rel == rel && x.args@ == args {
                Some(rows.len() as u32)
            } else {
                None
            },
        }),
    decreases rows.len() - i,
{
    if i < rows.len() {
        assert(rows.push(x)[i] == rows[i]);
        lemma_probe_push(rows, x, rel, args, i + 1);
    } else {
        assert(rows.push(x)[i] == x);
        assert(probe_from(rows.push(x), rel, args, i + 1) is None);
        assert(probe_from(rows, rel, args, i) is None);
    }
}

pub(crate) proof fn lemma_probe_found(rows: Seq<Row>, rel: u32, args: Seq<Arg>, i: int)
    requires
        0 <= i,
        rows.len() <= u32::MAX,
    ensures
        probe_from(rows, rel, args, i) matches Some(m) ==> i <= m < rows.len() && rows[m as int].rel == rel
            && rows[m as int].args@ == args,
        probe_from(rows, rel, args, i) is None ==> forall|j: int|
            i <= j < rows.len() ==> !(#[trigger] rows[j].rel == rel && rows[j].args@ == args),
    decreases rows.len() - i,
{
    if i < rows.len() {
        lemma_probe_found(rows, rel, args, i + 1);
    }
}


fn same_args(a: &Vec<Arg>, b: &Vec<Arg>) -> (r: bool)
    ensures
        r == (a@ == b@),
{
    if a.len() != b.len() {
        return false;
    }
    let mut i: usize = 0;
    while i < a.len()
        invariant
            a@.len() == b@.len(),
            i <= a@.len(),
            forall|k: int| 0 <= k < i ==> a@[k] == b@[k],
        decreases a@.len() - i,
    {
        if !same_arg(a[i], b[i]) {
            return false;
        }
        i = i + 1;
    }
    assert(a@ =~= b@);
    true
}

/// The interned id of `(rel args…)`, if it was interned.
pub fn probe_fact(tbl: &FactTable, rel: u32, args: &Vec<Arg>) -> (r: Option<u32>)
    requires
        tbl.rows@.len() <= u32::MAX,
    ensures
        r == probe(tbl, rel, args@),
{
    let mut i: usize = 0;
    while i < tbl.rows.len()
        invariant
            tbl.rows@.len() <= u32::MAX,
            i <= tbl.rows@.len(),
            probe(tbl, rel, args@) == probe_from(tbl.rows@, rel, args@, i as int),
        decreases tbl.rows@.len() - i,
    {
        if tbl.rows[i].rel == rel && same_args(&tbl.rows[i].args, args) {
            return Some(i as u32);
        }
        i = i + 1;
    }
    None
}

/// `(rel args…)`'s id, interning it as a new row when it is new.
pub fn intern_fact(tbl: &mut FactTable, rel: u32, args: Vec<Arg>) -> (id: u32)
    requires
        old(tbl).wf(),
        unique_rows(old(tbl)),
        old(tbl).rows@.len() < u32::MAX,
        rel < old(tbl).names@.len(),
        forall|k: int| 0 <= k < args@.len() ==> old(tbl).arg_ok(#[trigger] args@[k], old(tbl).rows@.len() as int),
    ensures
        final(tbl).wf(),
        unique_rows(final(tbl)),
        final(tbl).names@ == old(tbl).names@,
        final(tbl).rows@.take(old(tbl).rows@.len() as int) == old(tbl).rows@,
        match probe(old(tbl), rel, args@) {
            Some(x) => id == x && final(tbl).rows@ == old(tbl).rows@,
            None => id == old(tbl).rows@.len() && final(tbl).rows@.len() == old(tbl).rows@.len() + 1
                && final(tbl).rows@.last().rel == rel && final(tbl).rows@.last().args@ == args@,
        },
        id < final(tbl).rows@.len(),
        final(tbl).rows@[id as int].rel == rel,
        final(tbl).rows@[id as int].args@ == args@,
        final(tbl).rows@.len() == old(tbl).rows@.len() ==> *final(tbl) == *old(tbl),
{
    let ghost t0 = old(tbl).rows@;
    proof {
        lemma_probe_found(t0, rel, args@, 0);
    }
    match probe_fact(tbl, rel, &args) {
        Some(x) => {
            assert(tbl.rows@.take(t0.len() as int) =~= t0);
            x
        },
        None => {
            let n = tbl.rows.len();
            let ghost a = args@;
            tbl.rows.push(Row { rel, args });
            proof {
                assert(tbl.rows@.take(n as int) =~= t0);
                assert forall|f: int| 0 <= f < tbl.rows@.len() implies #[trigger] tbl.row_ok(f) by {
                    if f < n {
                        assert(old(tbl).row_ok(f));
                        assert(tbl.rows@[f] == t0[f]);
                    } else {
                        assert forall|k: int| 0 <= k < tbl.rows@[f].args@.len() implies tbl.arg_ok(
                            #[trigger] tbl.rows@[f].args@[k],
                            f,
                        ) by {
                            assert(tbl.rows@[f].args@[k] == a[k]);
                            assert(old(tbl).arg_ok(a[k], n as int));
                        }
                    }
                }
                assert forall|i: int, j: int| 0 <= i < j < tbl.rows@.len() implies !(#[trigger] tbl.rows@[i].rel
                    == #[trigger] tbl.rows@[j].rel && tbl.rows@[i].args@ == tbl.rows@[j].args@) by {
                    assert(tbl.rows@[i] == t0[i]);
                    if j < n {
                        assert(tbl.rows@[j] == t0[j]);
                    }
                }
            }
            n as u32
        },
    }
}

} // verus!
