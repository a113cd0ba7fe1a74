//! Per-entering audit records: one JSON-Lines record per entering, built so
//! that two runs compare without sharing an interner — facts and provenance
//! go out as canonical s-expressions, sorted by their text.
use vstd::prelude::*;

use crate::commitment::Kind;
use crate::events::sexpr_value;
use crate::facts::{Arg, FactTable};
use crate::text::{
    digits, hex_char, hex_digit, join_with, order_by_text, push_char, push_digits, sort_strings, sorted_texts,
    text_order, texts,
};

verus! {

// ── The audit's JSON ─────────────────────────────────────────────────

/// How the audit writes one character inside a string literal: quote,
/// backslash and newline escaped, other control characters as `\u00xx`.
pub open spec fn audit_char(c: char) -> Seq<char> {
    if c == '"' {
        seq!['\\', '"']
    } else if c == '\\' {
        seq!['\\', '\\']
    } else if c == '\n' {
        seq!['\\', 'n']
    } else if (c as u32) < 0x20 {
        seq!['\\', 'u', '0', '0', hex_digit((c as u32 / 16) as nat), hex_digit((c as u32 % 16) as nat)]
    } else {
        seq![c]
    }
}

pub open spec fn audit_chars(s: Seq<char>) -> Seq<char>
    decreases s.len(),
{
    if s.len() == 0 {
        Seq::empty()
    } else {
        audit_chars(s.drop_last()) + audit_char(s.last())
    }
}

/// A string literal.
pub open spec fn audit_str(s: Seq<char>) -> Seq<char> {
    seq!['"'] + audit_chars(s) + seq!['"']
}

/// A list of string literals, comma-separated with no space.
pub open spec fn audit_list(items: Seq<Seq<char>>) -> Seq<char> {
    seq!['['] + join_with(items.map_values(|s: Seq<char>| audit_str(s)), seq![',']) + seq![']']
}

fn push_audit_char(out: &mut String, c: char)
    ensures
        final(out)@ == old(out)@ + audit_char(c),
{
    if c == '"' {
        push_char(out, '\\');
        push_char(out, '"');
    } else if c == '\\' {
        push_char(out, '\\');
        push_char(out, '\\');
    } else if c == '\n' {
        push_char(out, '\\');
        push_char(out, 'n');
    } else if (c as u32) < 0x20 {
        let v = c as u32;
        push_char(out, '\\');
        push_char(out, 'u');
        push_char(out, '0');
        push_char(out, '0');
        push_char(out, hex_char(v / 16));
        push_char(out, hex_char(v % 16));
    } else {
        push_char(out, c);
    }
    assert(out@ =~= old(out)@ + audit_char(c));
}

/// Append `s` as a string literal.
pub fn json_str(s: &str, out: &mut String)
    ensures
        final(out)@ == old(out)@ + audit_str(s@),
{
    push_char(out, '"');
    let n = s.unicode_len();
    let mut i: usize = 0;
    while i < n
        invariant
            i <= n,
            n == s@.len(),
            out@ == old(out)@ + seq!['"'] + audit_chars(s@.take(i as int)),
        decreases n - i,
    {
        let c = s.get_char(i);
        assert(s@.take(i + 1).drop_last() =~= s@.take(i as int));
        assert(s@.take(i + 1).last() == c);
        push_audit_char(out, c);
        assert(out@ =~= old(out)@ + seq!['"'] + audit_chars(s@.take(i + 1)));
        i = i + 1;
    }
    push_char(out, '"');
    assert(s@.take(n as int) =~= s@);
    assert(out@ =~= old(out)@ + audit_str(s@));
}

/// Append `items` as a list of string literals.
pub fn json_list(items: &Vec<String>, out: &mut String)
    ensures
        final(out)@ == old(out)@ + audit_list(texts(items@)),
{
    let ghost head = old(out)@;
    let ghost lits = texts(items@).map_values(|s: Seq<char>| audit_str(s));
    push_char(out, '[');
    let mut i: usize = 0;
    while i < items.len()
        invariant
            i <= items@.len(),
            lits == texts(items@).map_values(|s: Seq<char>| audit_str(s)),
            out@ == head + seq!['['] + join_with(lits.take(i as int), seq![',']),
        decreases items@.len() - i,
    {
        if i > 0 {
            push_char(out, ',');
        }
        json_str(items[i].as_str(), out);
        proof {
            assert(lits.take(i + 1).drop_last() =~= lits.take(i as int));
            assert(lits.take(i + 1).last() == audit_str(items@[i as int]@));
            if i == 0 {
                assert(lits.take(1).len() == 1);
            }
            assert(out@ =~= head + seq!['['] + join_with(lits.take(i + 1), seq![',']));
        }
        i = i + 1;
    }
    push_char(out, ']');
    assert(lits.take(items@.len() as int) =~= lits);
    assert(out@ =~= head + audit_list(texts(items@)));
}

// ── Provenance, rendered ─────────────────────────────────────────────

/// An argument of a negative premise.
pub enum NafArg {
    /// Unconstrained.
    Free,
    Value(Arg),
    Nested { rel: u32, args: Vec<NafArg> },
}

/// A negative premise: `(rel args…)`, which was absent.
pub struct NafRef {
    pub rel: u32,
    pub args: Vec<NafArg>,
}

/// One recorded derivation.
pub struct Prov {
    /// The record's kind, as the store names it.
    pub kind: String,
    pub rule: Option<u32>,
    pub source: Option<u32>,
    /// The positive premises, in plan-step order.
    pub premises: Vec<u32>,
    /// The negative premises, in query order.
    pub absent: Vec<NafRef>,
}

/// A negative premise's arguments, each after a space.
pub open spec fn naf_args_text(tbl: &FactTable, args: Seq<NafArg>) -> Seq<char>
    decreases args,
{
    if args.len() == 0 {
        Seq::empty()
    } else {
        naf_args_text(tbl, args.drop_last()) + " "@ + naf_arg_text(tbl, args.last())
    }
}

pub open spec fn naf_arg_text(tbl: &FactTable, a: NafArg) -> Seq<char>
    decreases a,
{
    match a {
        NafArg::Free => "_"@,
        NafArg::Value(v) => tbl.value_text(v),
        NafArg::Nested { rel, args } => "("@ + tbl.name(rel) + naf_args_text(tbl, args@) + ")"@,
    }
}

/// `(rel a _ (nested …))`.
pub open spec fn naf_text(tbl: &FactTable, n: NafRef) -> Seq<char> {
    "("@ + tbl.name(n.rel) + naf_args_text(tbl, n.args@) + ")"@
}

/// Every name and fact a negative-premise argument refers to exists.
pub open spec fn naf_arg_ok(tbl: &FactTable, a: NafArg) -> bool
    decreases a,
{
    match a {
        NafArg::Free => true,
        NafArg::Value(v) => tbl.arg_ok(v, tbl.rows@.len() as int),
        NafArg::Nested { rel, args } => rel < tbl.names@.len() && naf_args_ok(tbl, args@),
    }
}

pub open spec fn naf_args_ok(tbl: &FactTable, args: Seq<NafArg>) -> bool
    decreases args,
{
    if args.len() == 0 {
        true
    } else {
        naf_args_ok(tbl, args.drop_last()) && naf_arg_ok(tbl, args.last())
    }
}

/// `kind|rule|source|premises|absent` — the whole record except the
/// display bindings.
pub open spec fn prov_text(tbl: &FactTable, p: Prov) -> Seq<char> {
    p.kind@ + "|"@ + (match p.rule {
        Some(r) => tbl.name(r),
        None => Seq::empty(),
    }) + "|"@ + (match p.source {
        Some(s) => tbl.name(s),
        None => Seq::empty(),
    }) + "|"@ + join_with(p.premises@.map_values(|f: u32| tbl.fact_text(f as int)), " "@) + "|"@ + join_with(
        p.absent@.map_values(|n: NafRef| naf_text(tbl, n)),
        " "@,
    )
}

/// Every name and fact a record refers to exists.
pub open spec fn prov_ok(tbl: &FactTable, p: Prov) -> bool {
    &&& (p.rule matches Some(r) ==> r < tbl.names@.len())
    &&& (p.source matches Some(s) ==> s < tbl.names@.len())
    &&& forall|i: int| 0 <= i < p.premises@.len() ==> (#[trigger] p.premises@[i]) < tbl.rows@.len()
    &&& forall|i: int|
        0 <= i < p.absent@.len() ==> (#[trigger] p.absent@[i]).rel < tbl.names@.len() && naf_args_ok(
            tbl,
            p.absent@[i].args@,
        )
}

fn push_naf_args(tbl: &FactTable, args: &Vec<NafArg>, out: &mut String)
    requires
        tbl.wf(),
        naf_args_ok(tbl, args@),
    ensures
        final(out)@ == old(out)@ + naf_args_text(tbl, args@),
    decreases args@,
{
    let ghost head = old(out)@;
    let mut i: usize = 0;
    while i < args.len()
        invariant
            tbl.wf(),
            naf_args_ok(tbl, args@),
            i <= args@.len(),
            out@ == head + naf_args_text(tbl, args@.take(i as int)),
        decreases args@.len() - i,
    {
        proof {
            lemma_naf_args_ok_at(tbl, args@, i as int);
            assert(args@.take(i + 1).drop_last() =~= args@.take(i as int));
            assert(args@.take(i + 1).last() == args@[i as int]);
        }
        out.append(" ");
        let ghost sp = out@;
        match &args[i] {
            NafArg::Free => {
                out.append("_");
            },
            NafArg::Value(v) => {
                let t = sexpr_value(tbl, *v);
                out.append(t.as_str());
            },
            NafArg::Nested { rel, args: inner } => {
                out.append("(");
                out.append(tbl.names[*rel as usize].as_str());
                assert(decreases_to!(args@ => args@[i as int]));
                assert(decreases_to!(args@[i as int] => args@[i as int]->args));
                assert(decreases_to!(args@[i as int]->args => (args@[i as int]->args)@));
                push_naf_args(tbl, inner, out);
                out.append(")");
            },
        }
        assert(out@ =~= sp + naf_arg_text(tbl, args@[i as int]));
        assert(out@ =~= head + naf_args_text(tbl, args@.take(i + 1)));
        i = i + 1;
    }
    assert(args@.take(args@.len() as int) =~= args@);
}

proof fn lemma_naf_args_ok_at(tbl: &FactTable, args: Seq<NafArg>, i: int)
    requires
        naf_args_ok(tbl, args),
        0 <= i < args.len(),
    ensures
        naf_arg_ok(tbl, args[i]),
    decreases args.len(),
{
    if i < args.len() - 1 {
        assert(args.drop_last()[i] == args[i]);
        lemma_naf_args_ok_at(tbl, args.drop_last(), i);
    }
}


fn naf_repr(tbl: &FactTable, n: &NafRef, out: &mut String)
    requires
        tbl.wf(),
        n.rel < tbl.names@.len(),
        naf_args_ok(tbl, n.args@),
    ensures
        final(out)@ == old(out)@ + naf_text(tbl, *n),
{
    let ghost head = old(out)@;
    out.append("(");
    out.append(tbl.names[n.rel as usize].as_str());
    push_naf_args(tbl, &n.args, out);
    out.append(")");
    assert(out@ =~= head + naf_text(tbl, *n));
}

/// Items separated by `sep`, appended.
fn push_joined(out: &mut String, items: &Vec<String>, sep: &str)
    ensures
        final(out)@ == old(out)@ + join_with(texts(items@), sep@),
{
    let joined = crate::text::join_strings(items, sep);
    out.append(joined.as_str());
}

/// One derivation, rendered: `kind|rule|source|premises|absent`.
fn prov_repr(tbl: &FactTable, p: &Prov) -> (s: String)
    requires
        tbl.wf(),
        prov_ok(tbl, *p),
    ensures
        s@ == prov_text(tbl, *p),
{
    let mut out = String::new();
    out.append(p.kind.as_str());
    out.append("|");
    match p.rule {
        Some(r) => out.append(tbl.names[r as usize].as_str()),
        None => {},
    }
    out.append("|");
    match p.source {
        Some(s) => out.append(tbl.names[s as usize].as_str()),
        None => {},
    }
    out.append("|");
    let premises = crate::events::sexpr_facts(tbl, p.premises.as_slice());
    push_joined(&mut out, &premises, " ");
    out.append("|");
    let mut absent: Vec<String> = Vec::new();
    let mut i: usize = 0;
    while i < p.absent.len()
        invariant
            tbl.wf(),
            prov_ok(tbl, *p),
            i <= p.absent@.len(),
            texts(absent@) == p.absent@.take(i as int).map_values(|n: NafRef| naf_text(tbl, n)),
        decreases p.absent@.len() - i,
    {
        let mut t = String::new();
        naf_repr(tbl, &p.absent[i], &mut t);
        let ghost before = texts(absent@);
        absent.push(t);
        assert(texts(absent@) =~= before.push(naf_text(tbl, p.absent@[i as int])));
        assert(p.absent@.take(i + 1).map_values(|n: NafRef| naf_text(tbl, n)) =~= p.absent@.take(i as int).map_values(|n: NafRef| naf_text(tbl, n)).push(naf_text(tbl, p.absent@[i as int])));
        i = i + 1;
    }
    assert(p.absent@.take(p.absent@.len() as int) =~= p.absent@);
    push_joined(&mut out, &absent, " ");
    proof {
        let rule_text = match p.rule {
            Some(r) => tbl.name(r),
            None => Seq::empty(),
        };
        let source_text = match p.source {
            Some(s) => tbl.name(s),
            None => Seq::empty(),
        };
        assert(out@ =~= prov_text(tbl, *p));
    }
    out
}

/// One entering, as its audit record reads it.
pub struct Entering {
    /// The hypotheses entered.
    pub commitment: Vec<u32>,
    pub kind: Kind,
    /// The fork's facts at quiescence.
    pub facts: Vec<u32>,
    /// The unsat core, when the entering died.
    pub core: Vec<u32>,
    /// Each fact's recorded justifications, by position in `facts`: the
    /// primary first, then the alternatives in stored order.
    pub justifications: Vec<Vec<Prov>>,
}

/// Every fact and record an entering refers to exists.
pub open spec fn entering_ok(tbl: &FactTable, e: &Entering) -> bool {
    &&& forall|i: int| 0 <= i < e.commitment@.len() ==> (#[trigger] e.commitment@[i]) < tbl.rows@.len()
    &&& forall|i: int| 0 <= i < e.facts@.len() ==> (#[trigger] e.facts@[i]) < tbl.rows@.len()
    &&& forall|i: int| 0 <= i < e.core@.len() ==> (#[trigger] e.core@[i]) < tbl.rows@.len()
    &&& e.justifications@.len() == e.facts@.len()
    &&& forall|i: int, j: int|
        0 <= i < e.justifications@.len() && 0 <= j < e.justifications@[i]@.len() ==> prov_ok(
            tbl,
            #[trigger] e.justifications@[i]@[j],
        )
}

pub open spec fn facts_text(tbl: &FactTable, ids: Seq<u32>) -> Seq<Seq<char>> {
    ids.map_values(|f: u32| tbl.fact_text(f as int))
}

/// Fact `i` of the entering and its justifications: `[fact,[prov,…]]`.
pub open spec fn just_entry(tbl: &FactTable, e: &Entering, i: int) -> Seq<char> {
    "["@ + audit_str(tbl.fact_text(e.facts@[i] as int)) + ","@ + audit_list(
        e.justifications@[i]@.map_values(|p: Prov| prov_text(tbl, p)),
    ) + "]"@
}

/// The entering's record with its facts walked in `order`: the
/// commitment, kind, fact count, core, state and justifications, every
/// fact list sorted by its rendered text so no interning order shows.
pub open spec fn record_text(tbl: &FactTable, e: &Entering, order: Seq<int>) -> Seq<char> {
    let fts = facts_text(tbl, e.facts@);
    "{\"commitment\":"@ + audit_list(sorted_texts(facts_text(tbl, e.commitment@))) + ",\"kind\":"@ + audit_str(
        e.kind.name(),
    ) + ",\"n_facts\":"@ + digits(e.facts@.len()) + ",\"core\":"@ + audit_list(
        sorted_texts(facts_text(tbl, e.core@)),
    ) + ",\"state\":"@ + audit_list(order.map_values(|i: int| fts[i])) + ",\"just\":["@ + join_with(
        order.map_values(|i: int| just_entry(tbl, e, i)),
        ","@,
    ) + "]}\n"@
}

/// One entering's audit record, as the line the audit file takes.
#[verifier::spinoff_prover]
pub fn record(tbl: &FactTable, e: &Entering) -> (line: String)
    requires
        tbl.wf(),
        entering_ok(tbl, e),
    ensures
        exists|order: Seq<int>|
            #[trigger] text_order(facts_text(tbl, e.facts@), order) && line@ == record_text(tbl, e, order),
{
    let fact_texts = crate::events::sexpr_facts(tbl, e.facts.as_slice());
    let ghost fts = facts_text(tbl, e.facts@);
    assert(texts(fact_texts@) =~= fts);
    let order = order_by_text(&fact_texts);
    let ghost o = order@.map_values(|t: usize| t as int);
    let commitment = sort_strings(&crate::events::sexpr_facts(tbl, e.commitment.as_slice()));
    let core = sort_strings(&crate::events::sexpr_facts(tbl, e.core.as_slice()));
    let mut state: Vec<String> = Vec::new();
    let mut t: usize = 0;
    while t < order.len()
        invariant
            texts(fact_texts@) == fts,
            fts.len() == e.facts@.len(),
            o == order@.map_values(|t: usize| t as int),
            text_order(fts, o),
            t <= order@.len(),
            texts(state@) == o.take(t as int).map_values(|i: int| fts[i]),
        decreases order@.len() - t,
    {
        assert(0 <= o[t as int] < fts.len());
        let ghost before = texts(state@);
        state.push(fact_texts[order[t]].clone());
        assert(texts(state@) =~= before.push(fts[o[t as int]]));
        assert(o.take(t + 1).map_values(|i: int| fts[i]) =~= o.take(t as int).map_values(|i: int| fts[i]).push(fts[o[t as int]]));
        t = t + 1;
    }
    assert(o.take(o.len() as int) =~= o);
    let mut out = String::new();
    out.append("{\"commitment\":");
    json_list(&commitment, &mut out);
    out.append(",\"kind\":");
    json_str(e.kind.as_str(), &mut out);
    out.append(",\"n_facts\":");
    push_digits(&mut out, e.facts.len() as u64);
    out.append(",\"core\":");
    json_list(&core, &mut out);
    out.append(",\"state\":");
    json_list(&state, &mut out);
    out.append(",\"just\":[");
    let ghost head = out@;
    let ghost entries = o.map_values(|i: int| just_entry(tbl, e, i));
    let mut t: usize = 0;
    while t < order.len()
        invariant
            tbl.wf(),
            entering_ok(tbl, e),
            texts(fact_texts@) == fts,
            fts.len() == e.facts@.len(),
            o == order@.map_values(|t: usize| t as int),
            text_order(fts, o),
            entries == o.map_values(|i: int| just_entry(tbl, e, i)),
            fts == facts_text(tbl, e.facts@),
            t <= order@.len(),
            out@ == head + join_with(entries.take(t as int), ","@),
        decreases order@.len() - t,
    {
        let i = order[t];
        assert(0 <= o[t as int] < fts.len());
        let ghost before = out@;
        if t > 0 {
            out.append(",");
        }
        let ghost sep = out@;
        out.append("[");
        json_str(fact_texts[i].as_str(), &mut out);
        out.append(",");
        let js = &e.justifications[i];
        let mut reprs: Vec<String> = Vec::new();
        let mut j: usize = 0;
        while j < js.len()
            invariant
                tbl.wf(),
                entering_ok(tbl, e),
                i < e.justifications@.len(),
                *js == e.justifications@[i as int],
                j <= js@.len(),
                texts(reprs@) == js@.take(j as int).map_values(|p: Prov| prov_text(tbl, p)),
            decreases js@.len() - j,
        {
            assert(prov_ok(tbl, e.justifications@[i as int]@[j as int]));
            let r = prov_repr(tbl, &js[j]);
            let ghost b = texts(reprs@);
            reprs.push(r);
            assert(texts(reprs@) =~= b.push(prov_text(tbl, js@[j as int])));
            assert(js@.take(j + 1).map_values(|p: Prov| prov_text(tbl, p)) =~= js@.take(j as int).map_values(|p: Prov| prov_text(tbl, p)).push(prov_text(tbl, js@[j as int])));
            j = j + 1;
        }
        assert(js@.take(js@.len() as int) =~= js@);
        json_list(&reprs, &mut out);
        out.append("]");
        proof {
            assert(texts(fact_texts@)[i as int] == fact_texts@[i as int]@);
            assert(fts[i as int] == tbl.fact_text(e.facts@[i as int] as int));
            assert(fact_texts@[i as int]@ == tbl.fact_text(e.facts@[i as int] as int));
            assert(texts(reprs@) =~= e.justifications@[i as int]@.map_values(|p: Prov| prov_text(tbl, p)));
            assert(out@ =~= sep + just_entry(tbl, e, i as int));
            assert(entries.take(t + 1).drop_last() =~= entries.take(t as int));
            assert(entries.take(t + 1).last() == just_entry(tbl, e, i as int));
            if t == 0 {
                assert(entries.take(1).len() == 1);
            }
            assert(out@ =~= head + join_with(entries.take(t + 1), ","@));
        }
        t = t + 1;
    }
    assert(entries.take(entries.len() as int) =~= entries);
    out.append("]}\n");
    assert(out@ =~= record_text(tbl, e, o));
    out
}


fn ids_in(tbl: &FactTable, ids: &Vec<u32>) -> (r: bool)
    ensures
        r == forall|i: int| 0 <= i < ids@.len() ==> (#[trigger] ids@[i]) < tbl.rows@.len(),
{
    let mut i: usize = 0;
    while i < ids.len()
        invariant
            i <= ids@.len(),
            forall|q: int| 0 <= q < i ==> (#[trigger] ids@[q]) < tbl.rows@.len(),
        decreases ids@.len() - i,
    {
        if ids[i] as usize >= tbl.rows.len() {
            return false;
        }
        i = i + 1;
    }
    true
}

fn naf_args_are_ok(tbl: &FactTable, args: &Vec<NafArg>) -> (r: bool)
    ensures
        r == naf_args_ok(tbl, args@),
    decreases args@,
{
    let mut i: usize = 0;
    while i < args.len()
        invariant
            i <= args@.len(),
            naf_args_ok(tbl, args@.take(i as int)),
        decreases args@.len() - i,
    {
        assert(args@.take(i + 1).drop_last() =~= args@.take(i as int));
        assert(args@.take(i + 1).last() == args@[i as int]);
        let ok = match &args[i] {
            NafArg::Free => true,
            NafArg::Value(v) => match v {
                Arg::Sym(s) => (*s as usize) < tbl.names.len(),
                Arg::Int(_) => true,
                Arg::Fact(g) => (*g as usize) < tbl.rows.len(),
            },
            NafArg::Nested { rel, args: inner } => {
                assert(decreases_to!(args@ => args@[i as int]));
                assert(decreases_to!(args@[i as int] => args@[i as int]->args));
                assert(decreases_to!(args@[i as int]->args => (args@[i as int]->args)@));
                (*rel as usize) < tbl.names.len() && naf_args_are_ok(tbl, inner)
            },
        };
        assert(ok == naf_arg_ok(tbl, args@[i as int]));
        if !ok {
            proof {
                if naf_args_ok(tbl, args@) {
                    lemma_naf_args_ok_at(tbl, args@, i as int);
                }
            }
            return false;
        }
        i = i + 1;
    }
    assert(args@.take(args@.len() as int) =~= args@);
    true
}

fn prov_is_ok(tbl: &FactTable, p: &Prov) -> (r: bool)
    ensures
        r == prov_ok(tbl, *p),
{
    match p.rule {
        Some(r) => if r as usize >= tbl.names.len() {
            return false;
        },
        None => {},
    }
    match p.source {
        Some(s) => if s as usize >= tbl.names.len() {
            return false;
        },
        None => {},
    }
    if !ids_in(tbl, &p.premises) {
        return false;
    }
    let mut i: usize = 0;
    while i < p.absent.len()
        invariant
            i <= p.absent@.len(),
            forall|q: int|
                0 <= q < i ==> (#[trigger] p.absent@[q]).rel < tbl.names@.len() && naf_args_ok(tbl, p.absent@[q].args@),
        decreases p.absent@.len() - i,
    {
        let n = &p.absent[i];
        if n.rel as usize >= tbl.names.len() || !naf_args_are_ok(tbl, &n.args) {
            return false;
        }
        i = i + 1;
    }
    true
}

impl Entering {
    /// Does every fact and record of the entering exist in `tbl`?
    pub fn is_ok(&self, tbl: &FactTable) -> (r: bool)
        ensures
            r == entering_ok(tbl, self),
    {
        if !ids_in(tbl, &self.commitment) || !ids_in(tbl, &self.facts) || !ids_in(tbl, &self.core) {
            return false;
        }
        if self.justifications.len() != self.facts.len() {
            return false;
        }
        let mut i: usize = 0;
        while i < self.justifications.len()
            invariant
                i <= self.justifications@.len(),
                forall|a: int, b: int|
                    0 <= a < i && 0 <= b < self.justifications@[a]@.len() ==> prov_ok(
                        tbl,
                        #[trigger] self.justifications@[a]@[b],
                    ),
            decreases self.justifications@.len() - i,
        {
            let js = &self.justifications[i];
            let mut j: usize = 0;
            while j < js.len()
                invariant
                    i < self.justifications@.len(),
                    *js == self.justifications@[i as int],
                    j <= js@.len(),
                    forall|b: int| 0 <= b < j ==> prov_ok(tbl, #[trigger] js@[b]),
                decreases js@.len() - j,
            {
                if !prov_is_ok(tbl, &js[j]) {
                    assert(!prov_ok(tbl, self.justifications@[i as int]@[j as int]));
                    return false;
                }
                j = j + 1;
            }
            i = i + 1;
        }
        true
    }
}

} // verus!
