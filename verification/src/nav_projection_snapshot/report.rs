//! Read-only verification of a snapshot against the current catalogue, and
//! its deterministic reports: `MATCH`, `DRIFT` with the exact measures that
//! diverge, or `HARNESS_FAILURE`.
use super::message::failure_message;
use super::rebuild::{
    applied, code_regions_view, consumption_view, ledger_view, measures_spec, reconstruct,
    ConsumptionView, RuleConsumption,
};
use super::{
    failure_view, opt_view, rules_view, state_name, FailureView, HarnessFailure, Measures,
    ProjectionSnapshot, SnapshotState,
};
use crate::nav::{fnv_canonical, push_fnv_canonical, CodeRegion};
use crate::text::{
    chars_of, decimal, hex_fixed, lines, push_decimal, push_hex_fixed, push_str_chars, split_lines,
    string_from,
};
use vstd::prelude::*;

verus! {

/// One measure that differs between the snapshot and the rebuilt state.
#[derive(Debug, Clone, PartialEq, Eq)]
pub struct Divergence {
    pub measure: &'static str,
    pub expected: String,
    pub observed: String,
}

/// The typed result of a verification.
#[derive(Debug, Clone, PartialEq, Eq)]
pub enum Outcome {
    Match,
    Drift(Vec<Divergence>),
    HarnessFailure(HarnessFailure),
}

pub open spec fn outcome_name(o: Outcome) -> Seq<char> {
    match o {
        Outcome::Match => "MATCH"@,
        Outcome::Drift(_) => "DRIFT"@,
        Outcome::HarnessFailure(_) => "HARNESS_FAILURE"@,
    }
}

impl Outcome {
    /// Canonical name of the outcome.
    pub fn as_str(&self) -> (s: &'static str)
        ensures
            s@ == outcome_name(*self),
    {
        match self {
            Outcome::Match => "MATCH",
            Outcome::Drift(_) => "DRIFT",
            Outcome::HarnessFailure(_) => "HARNESS_FAILURE",
        }
    }
}

/// The full report of a verification.
#[derive(Debug, Clone, PartialEq, Eq)]
pub struct VerifyReport {
    pub snapshot_id: String,
    pub state: SnapshotState,
    pub predecessor: Option<String>,
    pub expected: Measures,
    /// Absent when the reconstruction failed: without a valid reconstruction
    /// there is no observed measure, hence no drift.
    pub observed: Option<Measures>,
    pub outcome: Outcome,
    pub ledger: Vec<RuleConsumption>,
}

pub struct DivergenceView {
    pub measure: Seq<char>,
    pub expected: Seq<char>,
    pub observed: Seq<char>,
}

pub open spec fn divergence_view(d: Divergence) -> DivergenceView {
    DivergenceView { measure: d.measure@, expected: d.expected@, observed: d.observed@ }
}

pub open spec fn divergences_view(ds: Seq<Divergence>) -> Seq<DivergenceView> {
    Seq::new(ds.len(), |i: int| divergence_view(ds[i]))
}

/// The measures that differ, in the order regions, length, hash.
pub open spec fn divergences(e: Measures, o: Measures) -> Seq<DivergenceView> {
    (if o.regions != e.regions {
        seq![
            DivergenceView {
                measure: "regions"@,
                expected: decimal(e.regions as nat),
                observed: decimal(o.regions as nat),
            },
        ]
    } else {
        Seq::empty()
    }) + (if o.length != e.length {
        seq![
            DivergenceView {
                measure: "length"@,
                expected: decimal(e.length as nat),
                observed: decimal(o.length as nat),
            },
        ]
    } else {
        Seq::empty()
    }) + (if o.fnv1a64 != e.fnv1a64 {
        seq![
            DivergenceView {
                measure: "fnv1a64"@,
                expected: fnv_canonical(e.fnv1a64),
                observed: fnv_canonical(o.fnv1a64),
            },
        ]
    } else {
        Seq::empty()
    })
}

fn decimal_text(n: u64) -> (s: String)
    ensures
        s@ == decimal(n as nat),
{
    let mut v: Vec<char> = Vec::new();
    push_decimal(&mut v, n);
    string_from(&v)
}

pub(crate) fn divergences_exec(e: Measures, o: Measures) -> (r: Vec<Divergence>)
    ensures
        divergences_view(r@) == divergences(e, o),
{
    let mut r: Vec<Divergence> = Vec::new();
    if o.regions != e.regions {
        r.push(Divergence { measure: "regions", expected: decimal_text(e.regions), observed: decimal_text(o.regions) });
    }
    let ghost a = divergences_view(r@);
    if o.length != e.length {
        r.push(Divergence { measure: "length", expected: decimal_text(e.length), observed: decimal_text(o.length) });
    }
    let ghost b = divergences_view(r@);
    if o.fnv1a64 != e.fnv1a64 {
        r.push(Divergence { measure: "fnv1a64", expected: e.fnv1a64_canonical(), observed: o.fnv1a64_canonical() });
    }
    assert(divergences_view(r@) =~= divergences(e, o));
    r
}

/// Verifies a snapshot against a current catalogue. Read-only and pure:
/// drift only after a valid reconstruction, a harness failure never becomes
/// drift.
pub fn verify(snapshot: &ProjectionSnapshot, base: &[CodeRegion]) -> (r: VerifyReport)
    ensures
        r.snapshot_id@ == snapshot.id@,
        r.state == snapshot.state,
        opt_view(r.predecessor) == opt_view(snapshot.predecessor),
        r.expected == snapshot.measures,
        match applied(code_regions_view(base@), rules_view(snapshot.rules@)) {
            Err(f) => r.observed is None && r.ledger@.len() == 0 && (r.outcome matches Outcome::HarnessFailure(e)
                && failure_view(e) == f),
            Ok((rs, l)) => {
                let o = measures_spec(rs);
                &&& r.observed == Some(o)
                &&& ledger_view(r.ledger@) == l
                &&& divergences(snapshot.measures, o).len() == 0 ==> r.outcome is Match
                &&& divergences(snapshot.measures, o).len() > 0 ==> (r.outcome matches Outcome::Drift(ds)
                    && divergences_view(ds@) == divergences(snapshot.measures, o))
            },
        },
{
    let id = snapshot.id.clone();
    let predecessor = super::clone_opt(&snapshot.predecessor);
    match reconstruct(base, snapshot) {
        Err(failure) => VerifyReport {
            snapshot_id: id,
            state: snapshot.state,
            predecessor,
            expected: snapshot.measures,
            observed: None,
            outcome: Outcome::HarnessFailure(failure),
            ledger: Vec::new(),
        },
        Ok(reconstruction) => {
            let observed = reconstruction.measures();
            let ds = divergences_exec(snapshot.measures, observed);
            let outcome = if ds.len() == 0 {
                Outcome::Match
            } else {
                Outcome::Drift(ds)
            };
            VerifyReport {
                snapshot_id: id,
                state: snapshot.state,
                predecessor,
                expected: snapshot.measures,
                observed: Some(observed),
                outcome,
                ledger: reconstruction.ledger,
            }
        },
    }
}

/// The JSON escape of one character.
pub open spec fn json_escape_char(c: char) -> Seq<char> {
    if c == '"' {
        seq!['\\', '"']
    } else if c == '\\' {
        seq!['\\', '\\']
    } else if c == '\n' {
        seq!['\\', 'n']
    } else if c == '\r' {
        seq!['\\', 'r']
    } else if c == '\t' {
        seq!['\\', 't']
    } else if (c as u32) < 0x20 {
        seq!['\\', 'u'] + hex_fixed((c as u32) as nat, 4)
    } else {
        seq![c]
    }
}

pub open spec fn json_escaped(s: Seq<char>) -> Seq<char>
    decreases s.len(),
{
    if s.len() == 0 {
        Seq::empty()
    } else {
        json_escaped(s.drop_last()) + json_escape_char(s.last())
    }
}

/// A text as a JSON string.
pub open spec fn json_quoted(s: Seq<char>) -> Seq<char> {
    seq!['"'] + json_escaped(s) + seq!['"']
}

pub fn push_json_string(out: &mut Vec<char>, s: &str)
    ensures
        final(out)@ == old(out)@ + json_quoted(s@),
{
    let v = chars_of(s);
    out.push('"');
    let ghost start = out@;
    let mut i: usize = 0;
    assert(v@.take(0) =~= Seq::<char>::empty());
    assert(start + json_escaped(Seq::empty()) =~= start);
    while i < v.len()
        invariant
            i <= v@.len(),
            v@ == s@,
            out@ == start + json_escaped(v@.take(i as int)),
        decreases v.len() - i,
    {
        let c = v[i];
        assert(v@.take(i + 1).drop_last() =~= v@.take(i as int));
        if c == '"' {
            out.push('\\');
            out.push('"');
        } else if c == '\\' {
            out.push('\\');
            out.push('\\');
        } else if c == '\n' {
            out.push('\\');
            out.push('n');
        } else if c == '\r' {
            out.push('\\');
            out.push('r');
        } else if c == '\t' {
            out.push('\\');
            out.push('t');
        } else if (c as u32) < 0x20 {
            out.push('\\');
            out.push('u');
            let n: u64 = c as u32 as u64;
            assert(n as nat == (c as u32) as nat);
            push_hex_fixed(out, n, 4);
        } else {
            out.push(c);
        }
        assert(out@ =~= start + json_escaped(v@.take(i + 1)));
        i = i + 1;
    }
    assert(v@.take(i as int) =~= v@);
    out.push('"');
    assert(final(out)@ =~= old(out)@ + json_quoted(s@));
}

/// `{"regions":R,"length":L,"fnv1a64":"fnv1a64:..."}`.
pub open spec fn measures_json(m: Measures) -> Seq<char> {
    "{\"regions\":"@ + decimal(m.regions as nat) + ",\"length\":"@ + decimal(m.length as nat)
        + ",\"fnv1a64\":"@ + json_quoted(fnv_canonical(m.fnv1a64)) + "}"@
}

pub(crate) fn push_measures_json(out: &mut Vec<char>, m: &Measures)
    ensures
        final(out)@ == old(out)@ + measures_json(*m),
{
    push_str_chars(out, "{\"regions\":");
    push_decimal(out, m.regions);
    push_str_chars(out, ",\"length\":");
    push_decimal(out, m.length);
    push_str_chars(out, ",\"fnv1a64\":");
    let c = m.fnv1a64_canonical();
    push_json_string(out, c.as_str());
    push_str_chars(out, "}");
    assert(final(out)@ =~= old(out)@ + measures_json(*m));
}

/// The divergences as JSON objects separated by commas.
pub open spec fn divergences_json(ds: Seq<DivergenceView>) -> Seq<char>
    decreases ds.len(),
{
    if ds.len() == 0 {
        Seq::empty()
    } else {
        let d = ds.last();
        divergences_json(ds.drop_last()) + (if ds.len() > 1 {
            ","@
        } else {
            Seq::empty()
        }) + "{\"measure\":"@ + json_quoted(d.measure) + ",\"expected\":"@ + json_quoted(d.expected)
            + ",\"observed\":"@ + json_quoted(d.observed) + "}"@
    }
}

/// The ledger entries as JSON objects separated by commas.
pub open spec fn ledger_json(l: Seq<ConsumptionView>) -> Seq<char>
    decreases l.len(),
{
    if l.len() == 0 {
        Seq::empty()
    } else {
        let e = l.last();
        ledger_json(l.drop_last()) + (if l.len() > 1 {
            ","@
        } else {
            Seq::empty()
        }) + "{\"op\":"@ + json_quoted(e.op) + ",\"selector\":"@ + json_quoted(e.selector)
            + ",\"expected\":"@ + decimal(e.expected as nat) + ",\"consumed\":"@ + decimal(
            e.consumed as nat,
        ) + "}"@
    }
}

/// A text with its line breaks turned into spaces.
pub open spec fn one_line(s: Seq<char>) -> Seq<char> {
    Seq::new(s.len(), |i: int| if s[i] == '\n' {
        ' '
    } else {
        s[i]
    })
}

/// The JSON report: one line, keys in a fixed order.
pub open spec fn json_text(r: VerifyReport) -> Seq<char> {
    "{\"schema\":1"@ + ",\"snapshot\":"@ + json_quoted(r.snapshot_id@) + ",\"state\":"@ + json_quoted(
        state_name(r.state),
    ) + (match opt_view(r.predecessor) {
        Some(p) => ",\"predecessor\":"@ + json_quoted(p),
        None => ",\"predecessor\":null"@,
    }) + ",\"outcome\":"@ + json_quoted(outcome_name(r.outcome)) + ",\"expected\":"@ + measures_json(
        r.expected,
    ) + (match r.observed {
        Some(o) => ",\"observed\":"@ + measures_json(o),
        None => ",\"observed\":null"@,
    }) + ",\"divergences\":["@ + (match r.outcome {
        Outcome::Drift(ds) => divergences_json(divergences_view(ds@)),
        _ => Seq::empty(),
    }) + "]"@ + (match r.outcome {
        Outcome::HarnessFailure(f) => ",\"failure\":{\"code\":"@ + json_quoted(super::failure_code(f))
            + ",\"message\":"@ + json_quoted(one_line(failure_message(f))) + "}"@,
        _ => ",\"failure\":null"@,
    }) + ",\"consumption\":["@ + ledger_json(ledger_view(r.ledger@)) + "]}"@
}

/// No line break.
pub open spec fn single_line(s: Seq<char>) -> bool {
    forall|i: int| 0 <= i < s.len() ==> s[i] != '\n'
}

pub(crate) proof fn lemma_concat_single(a: Seq<char>, b: Seq<char>)
    requires
        single_line(a),
        single_line(b),
    ensures
        single_line(a + b),
{
    assert forall|i: int| 0 <= i < (a + b).len() implies (a + b)[i] != '\n' by {
        if i < a.len() {
            assert((a + b)[i] == a[i]);
        } else {
            assert((a + b)[i] == b[i - a.len()]);
        }
    }
}

proof fn lemma_digit_not_nl(d: nat)
    ensures
        crate::text::hex_lower(d) != '\n',
{
}

pub(crate) proof fn lemma_decimal_single(n: nat)
    ensures
        single_line(decimal(n)),
    decreases n,
{
    lemma_digit_not_nl(n % 10);
    if n >= 10 {
        lemma_decimal_single(n / 10);
        lemma_concat_single(decimal(n / 10), seq![crate::text::hex_lower(n % 10)]);
        assert(decimal(n) =~= decimal(n / 10) + seq![crate::text::hex_lower(n % 10)]);
    } else {
        lemma_digit_not_nl(n);
    }
}

proof fn lemma_hex_single(n: nat, w: nat)
    ensures
        single_line(hex_fixed(n, w)),
    decreases w,
{
    if w > 0 {
        lemma_hex_single(n / 16, (w - 1) as nat);
        lemma_digit_not_nl(n % 16);
        lemma_concat_single(hex_fixed(n / 16, (w - 1) as nat), seq![crate::text::hex_lower(n % 16)]);
        assert(hex_fixed(n, w) =~= hex_fixed(n / 16, (w - 1) as nat) + seq![crate::text::hex_lower(n % 16)]);
    }
}

proof fn lemma_escaped_single(s: Seq<char>)
    ensures
        single_line(json_escaped(s)),
    decreases s.len(),
{
    if s.len() > 0 {
        lemma_escaped_single(s.drop_last());
        let c = s.last();
        if c != '"' && c != '\\' && c != '\n' && c != '\r' && c != '\t' && (c as u32) < 0x20 {
            lemma_hex_single((c as u32) as nat, 4);
            lemma_concat_single(seq!['\\', 'u'], hex_fixed((c as u32) as nat, 4));
        }
        lemma_concat_single(json_escaped(s.drop_last()), json_escape_char(c));
    }
}

pub(crate) proof fn lemma_quoted_single(s: Seq<char>)
    ensures
        single_line(json_quoted(s)),
{
    lemma_escaped_single(s);
    lemma_concat_single(seq!['"'], json_escaped(s));
    lemma_concat_single(seq!['"'] + json_escaped(s), seq!['"']);
}

proof fn lemma_literal_single(s: Seq<char>)
    requires
        forall|i: int| 0 <= i < s.len() ==> s[i] != '\n',
    ensures
        single_line(s),
{
}

proof fn lemma_measures_single(m: Measures)
    ensures
        single_line(measures_json(m)),
{
    reveal_strlit("{\"regions\":");
    reveal_strlit(",\"length\":");
    reveal_strlit(",\"fnv1a64\":");
    reveal_strlit("}");
    lemma_decimal_single(m.regions as nat);
    lemma_decimal_single(m.length as nat);
    lemma_quoted_single(fnv_canonical(m.fnv1a64));
    let a = "{\"regions\":"@;
    let b = ",\"length\":"@;
    let c = ",\"fnv1a64\":"@;
    lemma_concat_single(a, decimal(m.regions as nat));
    lemma_concat_single(a + decimal(m.regions as nat), b);
    lemma_concat_single(a + decimal(m.regions as nat) + b, decimal(m.length as nat));
    lemma_concat_single(a + decimal(m.regions as nat) + b + decimal(m.length as nat), c);
    lemma_concat_single(a + decimal(m.regions as nat) + b + decimal(m.length as nat) + c, json_quoted(fnv_canonical(m.fnv1a64)));
    lemma_concat_single(
        a + decimal(m.regions as nat) + b + decimal(m.length as nat) + c + json_quoted(fnv_canonical(m.fnv1a64)),
        "}"@,
    );
}

proof fn lemma_divergences_single(ds: Seq<DivergenceView>)
    ensures
        single_line(divergences_json(ds)),
    decreases ds.len(),
{
    if ds.len() > 0 {
        reveal_strlit(",");
        reveal_strlit("{\"measure\":");
        reveal_strlit(",\"expected\":");
        reveal_strlit(",\"observed\":");
        reveal_strlit("}");
        let d = ds.last();
        lemma_divergences_single(ds.drop_last());
        lemma_quoted_single(d.measure);
        lemma_quoted_single(d.expected);
        lemma_quoted_single(d.observed);
        let sep: Seq<char> = if ds.len() > 1 { ","@ } else { Seq::empty() };
        let p0 = divergences_json(ds.drop_last());
        lemma_concat_single(p0, sep);
        lemma_concat_single(p0 + sep, "{\"measure\":"@);
        lemma_concat_single(p0 + sep + "{\"measure\":"@, json_quoted(d.measure));
        lemma_concat_single(p0 + sep + "{\"measure\":"@ + json_quoted(d.measure), ",\"expected\":"@);
        lemma_concat_single(p0 + sep + "{\"measure\":"@ + json_quoted(d.measure) + ",\"expected\":"@, json_quoted(d.expected));
        let p1 = p0 + sep + "{\"measure\":"@ + json_quoted(d.measure) + ",\"expected\":"@ + json_quoted(d.expected);
        lemma_concat_single(p1, ",\"observed\":"@);
        lemma_concat_single(p1 + ",\"observed\":"@, json_quoted(d.observed));
        lemma_concat_single(p1 + ",\"observed\":"@ + json_quoted(d.observed), "}"@);
    }
}

proof fn lemma_ledger_single(l: Seq<ConsumptionView>)
    ensures
        single_line(ledger_json(l)),
    decreases l.len(),
{
    if l.len() > 0 {
        reveal_strlit(",");
        reveal_strlit("{\"op\":");
        reveal_strlit(",\"selector\":");
        reveal_strlit(",\"expected\":");
        reveal_strlit(",\"consumed\":");
        reveal_strlit("}");
        let e = l.last();
        lemma_ledger_single(l.drop_last());
        lemma_quoted_single(e.op);
        lemma_quoted_single(e.selector);
        lemma_decimal_single(e.expected as nat);
        lemma_decimal_single(e.consumed as nat);
        let sep: Seq<char> = if l.len() > 1 { ","@ } else { Seq::empty() };
        let p0 = ledger_json(l.drop_last());
        lemma_concat_single(p0, sep);
        lemma_concat_single(p0 + sep, "{\"op\":"@);
        lemma_concat_single(p0 + sep + "{\"op\":"@, json_quoted(e.op));
        let p1 = p0 + sep + "{\"op\":"@ + json_quoted(e.op);
        lemma_concat_single(p1, ",\"selector\":"@);
        lemma_concat_single(p1 + ",\"selector\":"@, json_quoted(e.selector));
        let p2 = p1 + ",\"selector\":"@ + json_quoted(e.selector);
        lemma_concat_single(p2, ",\"expected\":"@);
        lemma_concat_single(p2 + ",\"expected\":"@, decimal(e.expected as nat));
        let p3 = p2 + ",\"expected\":"@ + decimal(e.expected as nat);
        lemma_concat_single(p3, ",\"consumed\":"@);
        lemma_concat_single(p3 + ",\"consumed\":"@, decimal(e.consumed as nat));
        lemma_concat_single(p3 + ",\"consumed\":"@ + decimal(e.consumed as nat), "}"@);
    }
}

/// The JSON report opens with the schema and the snapshot it speaks of.
pub proof fn law_json_report_prefix(r: VerifyReport)
    ensures
        json_text(r).take(("{\"schema\":1,\"snapshot\":"@).len() as int) == "{\"schema\":1,\"snapshot\":"@,
{
    reveal_strlit("{\"schema\":1");
    reveal_strlit(",\"snapshot\":");
    reveal_strlit("{\"schema\":1,\"snapshot\":");
    let p = "{\"schema\":1"@ + ",\"snapshot\":"@;
    assert(p =~= "{\"schema\":1,\"snapshot\":"@);
    assert(json_text(r).take(p.len() as int) =~= p);
}

/// The JSON report is one line.
#[verifier::spinoff_prover]
#[verifier::rlimit(80)]
pub proof fn law_json_report_one_line(r: VerifyReport)
    ensures
        single_line(json_text(r)),
{
    reveal_strlit("{\"schema\":1");
    reveal_strlit(",\"snapshot\":");
    reveal_strlit(",\"state\":");
    reveal_strlit(",\"predecessor\":");
    reveal_strlit(",\"predecessor\":null");
    reveal_strlit(",\"outcome\":");
    reveal_strlit(",\"expected\":");
    reveal_strlit(",\"observed\":");
    reveal_strlit(",\"observed\":null");
    reveal_strlit(",\"divergences\":[");
    reveal_strlit("]");
    reveal_strlit(",\"failure\":{\"code\":");
    reveal_strlit(",\"message\":");
    reveal_strlit("}");
    reveal_strlit(",\"failure\":null");
    reveal_strlit(",\"consumption\":[");
    reveal_strlit("]}");
    let a0 = "{\"schema\":1"@ + ",\"snapshot\":"@;
    lemma_concat_single("{\"schema\":1"@, ",\"snapshot\":"@);
    lemma_quoted_single(r.snapshot_id@);
    lemma_concat_single(a0, json_quoted(r.snapshot_id@));
    let a1 = a0 + json_quoted(r.snapshot_id@);
    lemma_concat_single(a1, ",\"state\":"@);
    lemma_quoted_single(state_name(r.state));
    lemma_concat_single(a1 + ",\"state\":"@, json_quoted(state_name(r.state)));
    let a2 = a1 + ",\"state\":"@ + json_quoted(state_name(r.state));
    let pred: Seq<char> = match opt_view(r.predecessor) {
        Some(p) => ",\"predecessor\":"@ + json_quoted(p),
        None => ",\"predecessor\":null"@,
    };
    match opt_view(r.predecessor) {
        Some(p) => {
            lemma_quoted_single(p);
            lemma_concat_single(",\"predecessor\":"@, json_quoted(p));
        },
        None => {},
    }
    lemma_concat_single(a2, pred);
    let a3 = a2 + pred;
    lemma_concat_single(a3, ",\"outcome\":"@);
    lemma_quoted_single(outcome_name(r.outcome));
    lemma_concat_single(a3 + ",\"outcome\":"@, json_quoted(outcome_name(r.outcome)));
    let a4 = a3 + ",\"outcome\":"@ + json_quoted(outcome_name(r.outcome));
    lemma_concat_single(a4, ",\"expected\":"@);
    lemma_measures_single(r.expected);
    lemma_concat_single(a4 + ",\"expected\":"@, measures_json(r.expected));
    let a5 = a4 + ",\"expected\":"@ + measures_json(r.expected);
    let obs: Seq<char> = match r.observed {
        Some(o) => ",\"observed\":"@ + measures_json(o),
        None => ",\"observed\":null"@,
    };
    match r.observed {
        Some(o) => {
            lemma_measures_single(o);
            lemma_concat_single(",\"observed\":"@, measures_json(o));
        },
        None => {},
    }
    lemma_concat_single(a5, obs);
    let a6 = a5 + obs;
    lemma_concat_single(a6, ",\"divergences\":["@);
    let divs: Seq<char> = match r.outcome {
        Outcome::Drift(ds) => divergences_json(divergences_view(ds@)),
        _ => Seq::empty(),
    };
    match r.outcome {
        Outcome::Drift(ds) => lemma_divergences_single(divergences_view(ds@)),
        _ => {},
    }
    lemma_concat_single(a6 + ",\"divergences\":["@, divs);
    let a7 = a6 + ",\"divergences\":["@ + divs;
    lemma_concat_single(a7, "]"@);
    let fail: Seq<char> = match r.outcome {
        Outcome::HarnessFailure(f) => ",\"failure\":{\"code\":"@ + json_quoted(super::failure_code(f))
            + ",\"message\":"@ + json_quoted(one_line(failure_message(f))) + "}"@,
        _ => ",\"failure\":null"@,
    };
    match r.outcome {
        Outcome::HarnessFailure(f) => {
            lemma_quoted_single(super::failure_code(f));
            lemma_quoted_single(one_line(failure_message(f)));
            let b0 = ",\"failure\":{\"code\":"@ + json_quoted(super::failure_code(f));
            lemma_concat_single(",\"failure\":{\"code\":"@, json_quoted(super::failure_code(f)));
            lemma_concat_single(b0, ",\"message\":"@);
            lemma_concat_single(b0 + ",\"message\":"@, json_quoted(one_line(failure_message(f))));
            lemma_concat_single(b0 + ",\"message\":"@ + json_quoted(one_line(failure_message(f))), "}"@);
        },
        _ => {},
    }
    let a8 = a7 + "]"@;
    lemma_concat_single(a8, fail);
    let a9 = a8 + fail;
    lemma_concat_single(a9, ",\"consumption\":["@);
    lemma_ledger_single(ledger_view(r.ledger@));
    lemma_concat_single(a9 + ",\"consumption\":["@, ledger_json(ledger_view(r.ledger@)));
    lemma_concat_single(a9 + ",\"consumption\":["@ + ledger_json(ledger_view(r.ledger@)), "]}"@);
    assert(json_text(r) == a9 + ",\"consumption\":["@ + ledger_json(ledger_view(r.ledger@)) + "]}"@);
}

pub(crate) fn one_line_exec(s: &String) -> (r: String)
    ensures
        r@ == one_line(s@),
{
    let v = chars_of(s.as_str());
    let mut out: Vec<char> = Vec::new();
    let mut i: usize = 0;
    while i < v.len()
        invariant
            i <= v@.len(),
            v@ == s@,
            out@ == one_line(v@).take(i as int),
        decreases v.len() - i,
    {
        if v[i] == '\n' {
            out.push(' ');
        } else {
            out.push(v[i]);
        }
        assert(out@ =~= one_line(v@).take(i + 1));
        i = i + 1;
    }
    assert(one_line(v@).take(i as int) =~= one_line(v@));
    string_from(&out)
}

/// The deterministic JSON report of a verification: one line, fixed key
/// order, no ANSI codes and no absolute path.
pub fn json_report(report: &VerifyReport) -> (s: String)
    ensures
        s@ == json_text(*report),
{
    let mut out: Vec<char> = Vec::new();
    push_str_chars(&mut out, "{\"schema\":1");
    push_str_chars(&mut out, ",\"snapshot\":");
    push_json_string(&mut out, report.snapshot_id.as_str());
    push_str_chars(&mut out, ",\"state\":");
    push_json_string(&mut out, report.state.as_str());
    let ghost a = out@;
    match &report.predecessor {
        Some(p) => {
            push_str_chars(&mut out, ",\"predecessor\":");
            push_json_string(&mut out, p.as_str());
        },
        None => push_str_chars(&mut out, ",\"predecessor\":null"),
    }
    assert(out@ =~= a + (match opt_view(report.predecessor) {
        Some(p) => ",\"predecessor\":"@ + json_quoted(p),
        None => ",\"predecessor\":null"@,
    }));
    push_str_chars(&mut out, ",\"outcome\":");
    push_json_string(&mut out, report.outcome.as_str());
    push_str_chars(&mut out, ",\"expected\":");
    push_measures_json(&mut out, &report.expected);
    let ghost b = out@;
    match &report.observed {
        Some(o) => {
            push_str_chars(&mut out, ",\"observed\":");
            push_measures_json(&mut out, o);
        },
        None => push_str_chars(&mut out, ",\"observed\":null"),
    }
    assert(out@ =~= b + (match report.observed {
        Some(o) => ",\"observed\":"@ + measures_json(o),
        None => ",\"observed\":null"@,
    }));
    push_str_chars(&mut out, ",\"divergences\":[");
    let ghost c = out@;
    match &report.outcome {
        Outcome::Drift(ds) => {
            let ghost dv = divergences_view(ds@);
            let mut i: usize = 0;
            assert(dv.take(0) =~= Seq::<DivergenceView>::empty());
            assert(c + divergences_json(Seq::empty()) =~= c);
            while i < ds.len()
                invariant
                    i <= ds@.len(),
                    dv == divergences_view(ds@),
                    out@ == c + divergences_json(dv.take(i as int)),
                decreases ds.len() - i,
            {
                assert(dv.take(i + 1).drop_last() =~= dv.take(i as int));
                assert(dv.take(i + 1).last() == divergence_view(ds@[i as int]));
                if i > 0 {
                    push_str_chars(&mut out, ",");
                }
                push_str_chars(&mut out, "{\"measure\":");
                push_json_string(&mut out, ds[i].measure);
                push_str_chars(&mut out, ",\"expected\":");
                push_json_string(&mut out, ds[i].expected.as_str());
                push_str_chars(&mut out, ",\"observed\":");
                push_json_string(&mut out, ds[i].observed.as_str());
                push_str_chars(&mut out, "}");
                assert(out@ =~= c + divergences_json(dv.take(i + 1)));
                i = i + 1;
            }
            assert(dv.take(i as int) =~= dv);
        },
        _ => {
            assert(out@ =~= c + Seq::<char>::empty());
        },
    }
    push_str_chars(&mut out, "]");
    let ghost d = out@;
    match &report.outcome {
        Outcome::HarnessFailure(f) => {
            push_str_chars(&mut out, ",\"failure\":{\"code\":");
            push_json_string(&mut out, f.code());
            push_str_chars(&mut out, ",\"message\":");
            let m = one_line_exec(&f.message());
            push_json_string(&mut out, m.as_str());
            push_str_chars(&mut out, "}");
        },
        _ => push_str_chars(&mut out, ",\"failure\":null"),
    }
    assert(out@ =~= d + (match report.outcome {
        Outcome::HarnessFailure(f) => ",\"failure\":{\"code\":"@ + json_quoted(super::failure_code(f))
            + ",\"message\":"@ + json_quoted(one_line(failure_message(f))) + "}"@,
        _ => ",\"failure\":null"@,
    }));
    push_str_chars(&mut out, ",\"consumption\":[");
    let ghost e = out@;
    let ghost lv = ledger_view(report.ledger@);
    let mut i: usize = 0;
    assert(lv.take(0) =~= Seq::<ConsumptionView>::empty());
    assert(e + ledger_json(Seq::empty()) =~= e);
    while i < report.ledger.len()
        invariant
            i <= report.ledger@.len(),
            lv == ledger_view(report.ledger@),
            out@ == e + ledger_json(lv.take(i as int)),
        decreases report.ledger.len() - i,
    {
        assert(lv.take(i + 1).drop_last() =~= lv.take(i as int));
        assert(lv.take(i + 1).last() == consumption_view(report.ledger@[i as int]));
        let entry = &report.ledger[i];
        if i > 0 {
            push_str_chars(&mut out, ",");
        }
        push_str_chars(&mut out, "{\"op\":");
        push_json_string(&mut out, entry.op);
        push_str_chars(&mut out, ",\"selector\":");
        push_json_string(&mut out, entry.selector.as_str());
        push_str_chars(&mut out, ",\"expected\":");
        push_decimal(&mut out, entry.expected);
        push_str_chars(&mut out, ",\"consumed\":");
        push_decimal(&mut out, entry.consumed);
        push_str_chars(&mut out, "}");
        assert(out@ =~= e + ledger_json(lv.take(i + 1)));
        i = i + 1;
    }
    assert(lv.take(i as int) =~= lv);
    push_str_chars(&mut out, "]}");
    assert(out@ =~= json_text(*report));
    string_from(&out)
}

/// `<label>: regioes=R comprimento=L fnv1a64:...\n`.
pub open spec fn measures_line(label: Seq<char>, m: Measures) -> Seq<char> {
    label + ": regioes="@ + decimal(m.regions as nat) + " comprimento="@ + decimal(m.length as nat)
        + " "@ + fnv_canonical(m.fnv1a64) + "\n"@
}

pub open spec fn harness_lines(ls: Seq<Seq<char>>) -> Seq<char>
    decreases ls.len(),
{
    if ls.len() == 0 {
        Seq::empty()
    } else {
        harness_lines(ls.drop_last()) + "harness "@ + ls.last() + "\n"@
    }
}

pub open spec fn drift_lines(ds: Seq<DivergenceView>) -> Seq<char>
    decreases ds.len(),
{
    if ds.len() == 0 {
        Seq::empty()
    } else {
        let d = ds.last();
        drift_lines(ds.drop_last()) + "drift "@ + d.measure + ": esperado "@ + d.expected
            + " observado "@ + d.observed + "\n"@
    }
}

pub open spec fn consumption_lines(l: Seq<ConsumptionView>) -> Seq<char>
    decreases l.len(),
{
    if l.len() == 0 {
        Seq::empty()
    } else {
        let e = l.last();
        consumption_lines(l.drop_last()) + "consumo "@ + e.op + " "@ + e.selector + ": "@ + decimal(
            e.consumed as nat,
        ) + "/"@ + decimal(e.expected as nat) + "\n"@
    }
}

/// The human report: no ANSI codes.
pub open spec fn human_text(r: VerifyReport) -> Seq<char> {
    "snapshot "@ + r.snapshot_id@ + " ["@ + state_name(r.state) + "] "@ + outcome_name(r.outcome)
        + "\n"@ + (match opt_view(r.predecessor) {
        Some(p) => "predecessor: "@ + p + "\n"@,
        None => "predecessor: —\n"@,
    }) + measures_line("esperado"@, r.expected) + (match r.observed {
        Some(o) => measures_line("observado"@, o),
        None => "observado: — (reconstrucao invalida)\n"@,
    }) + (match r.outcome {
        Outcome::Match => Seq::empty(),
        Outcome::Drift(ds) => drift_lines(divergences_view(ds@)),
        Outcome::HarnessFailure(f) => harness_lines(lines(failure_message(f))),
    }) + consumption_lines(ledger_view(r.ledger@))
}

fn push_measures_line(out: &mut Vec<char>, label: &str, m: &Measures)
    ensures
        final(out)@ == old(out)@ + measures_line(label@, *m),
{
    push_str_chars(out, label);
    push_str_chars(out, ": regioes=");
    push_decimal(out, m.regions);
    push_str_chars(out, " comprimento=");
    push_decimal(out, m.length);
    push_str_chars(out, " ");
    push_fnv_canonical(out, m.fnv1a64);
    push_str_chars(out, "\n");
    assert(final(out)@ =~= old(out)@ + measures_line(label@, *m));
}

/// The deterministic human report of a verification. No ANSI codes.
pub fn human_report(report: &VerifyReport) -> (s: String)
    ensures
        s@ == human_text(*report),
{
    let mut out: Vec<char> = Vec::new();
    push_str_chars(&mut out, "snapshot ");
    push_str_chars(&mut out, report.snapshot_id.as_str());
    push_str_chars(&mut out, " [");
    push_str_chars(&mut out, report.state.as_str());
    push_str_chars(&mut out, "] ");
    push_str_chars(&mut out, report.outcome.as_str());
    push_str_chars(&mut out, "\n");
    let ghost a = out@;
    match &report.predecessor {
        Some(p) => {
            push_str_chars(&mut out, "predecessor: ");
            push_str_chars(&mut out, p.as_str());
            push_str_chars(&mut out, "\n");
        },
        None => push_str_chars(&mut out, "predecessor: —\n"),
    }
    assert(out@ =~= a + (match opt_view(report.predecessor) {
        Some(p) => "predecessor: "@ + p + "\n"@,
        None => "predecessor: —\n"@,
    }));
    push_measures_line(&mut out, "esperado", &report.expected);
    let ghost b = out@;
    match &report.observed {
        Some(o) => push_measures_line(&mut out, "observado", o),
        None => push_str_chars(&mut out, "observado: — (reconstrucao invalida)\n"),
    }
    assert(out@ =~= b + (match report.observed {
        Some(o) => measures_line("observado"@, o),
        None => "observado: — (reconstrucao invalida)\n"@,
    }));
    let ghost c = out@;
    match &report.outcome {
        Outcome::Match => {
            assert(out@ =~= c + Seq::<char>::empty());
        },
        Outcome::Drift(ds) => {
            let ghost dv = divergences_view(ds@);
            let mut i: usize = 0;
            assert(dv.take(0) =~= Seq::<DivergenceView>::empty());
            assert(c + drift_lines(Seq::empty()) =~= c);
            while i < ds.len()
                invariant
                    i <= ds@.len(),
                    dv == divergences_view(ds@),
                    out@ == c + drift_lines(dv.take(i as int)),
                decreases ds.len() - i,
            {
                assert(dv.take(i + 1).drop_last() =~= dv.take(i as int));
                assert(dv.take(i + 1).last() == divergence_view(ds@[i as int]));
                push_str_chars(&mut out, "drift ");
                push_str_chars(&mut out, ds[i].measure);
                push_str_chars(&mut out, ": esperado ");
                push_str_chars(&mut out, ds[i].expected.as_str());
                push_str_chars(&mut out, " observado ");
                push_str_chars(&mut out, ds[i].observed.as_str());
                push_str_chars(&mut out, "\n");
                assert(out@ =~= c + drift_lines(dv.take(i + 1)));
                i = i + 1;
            }
            assert(dv.take(i as int) =~= dv);
        },
        Outcome::HarnessFailure(f) => {
            let text = chars_of(f.message().as_str());
            let ls = split_lines(&text);
            let ghost lv = lines(text@);
            let mut i: usize = 0;
            assert(lv.take(0) =~= Seq::<Seq<char>>::empty());
            assert(c + harness_lines(Seq::empty()) =~= c);
            while i < ls.len()
                invariant
                    i <= ls@.len(),
                    lv == lines(text@),
                    ls@.len() == lv.len(),
                    forall|k: int| 0 <= k < ls@.len() ==> #[trigger] ls@[k]@ == lv[k],
                    out@ == c + harness_lines(lv.take(i as int)),
                decreases ls.len() - i,
            {
                assert(lv.take(i + 1).drop_last() =~= lv.take(i as int));
                assert(lv.take(i + 1).last() == ls@[i as int]@);
                push_str_chars(&mut out, "harness ");
                crate::text::push_all(&mut out, &ls[i]);
                push_str_chars(&mut out, "\n");
                assert(out@ =~= c + harness_lines(lv.take(i + 1)));
                i = i + 1;
            }
            assert(lv.take(i as int) =~= lv);
        },
    }
    let ghost e = out@;
    let ghost lv = ledger_view(report.ledger@);
    let mut i: usize = 0;
    assert(lv.take(0) =~= Seq::<ConsumptionView>::empty());
    assert(e + consumption_lines(Seq::empty()) =~= e);
    while i < report.ledger.len()
        invariant
            i <= report.ledger@.len(),
            lv == ledger_view(report.ledger@),
            out@ == e + consumption_lines(lv.take(i as int)),
        decreases report.ledger.len() - i,
    {
        assert(lv.take(i + 1).drop_last() =~= lv.take(i as int));
        assert(lv.take(i + 1).last() == consumption_view(report.ledger@[i as int]));
        let entry = &report.ledger[i];
        push_str_chars(&mut out, "consumo ");
        push_str_chars(&mut out, entry.op);
        push_str_chars(&mut out, " ");
        push_str_chars(&mut out, entry.selector.as_str());
        push_str_chars(&mut out, ": ");
        push_decimal(&mut out, entry.consumed);
        push_str_chars(&mut out, "/");
        push_decimal(&mut out, entry.expected);
        push_str_chars(&mut out, "\n");
        assert(out@ =~= e + consumption_lines(lv.take(i + 1)));
        i = i + 1;
    }
    assert(lv.take(i as int) =~= lv);
    assert(out@ =~= human_text(*report));
    string_from(&out)
}

} // verus!
