//! The stable projection of a set of regions, its three measures, and the
//! pure reconstruction of a historical state from the current catalogue.
use super::parser::{rule_after, sort_rules, sorted_rules};
use super::{
    clone_opt, clone_rule, failure_view, opt_view, rule_op, rule_selector, rule_view, rules_view,
    snapshot_view, FailureView, HarnessFailure, Measures, ProjectionSnapshot, Rule, RuleView,
};
use crate::nav::{fnv_bytes, fnv_fold, CodeRegion};
use crate::text::{
    chars_of, has_prefix, lemma_seq_le_total_ordering, push_all, push_str_chars, seq_le, seq_lt,
    string_from, vec_lt,
};
use vstd::prelude::*;
use vstd::utf8::encode_utf8;

verus! {

/// A region as it takes part in the stable projection: the eight fields the
/// projection reads, and nothing else.
#[derive(Debug, Clone, PartialEq, Eq)]
pub struct ProjectionRegion {
    pub key: String,
    pub kind: String,
    pub domain: Option<String>,
    pub layer: Option<String>,
    pub file: String,
    pub summary: String,
    pub hash: String,
    pub status: String,
}

/// The eight stable fields of a region, as texts.
pub struct RegionView {
    pub key: Seq<char>,
    pub kind: Seq<char>,
    pub domain: Option<Seq<char>>,
    pub layer: Option<Seq<char>>,
    pub file: Seq<char>,
    pub summary: Seq<char>,
    pub hash: Seq<char>,
    pub status: Seq<char>,
}

pub open spec fn region_view(r: ProjectionRegion) -> RegionView {
    RegionView {
        key: r.key@,
        kind: r.kind@,
        domain: opt_view(r.domain),
        layer: opt_view(r.layer),
        file: r.file@,
        summary: r.summary@,
        hash: r.hash@,
        status: r.status@,
    }
}

pub open spec fn regions_view(rs: Seq<ProjectionRegion>) -> Seq<RegionView> {
    Seq::new(rs.len(), |i: int| region_view(rs[i]))
}

/// The stable fields of a region of the current catalogue.
pub open spec fn code_region_view(r: CodeRegion) -> RegionView {
    RegionView {
        key: r.key@,
        kind: r.kind@,
        domain: opt_view(r.domain),
        layer: opt_view(r.layer),
        file: r.file@,
        summary: r.summary@,
        hash: r.hash@,
        status: r.status@,
    }
}

impl ProjectionRegion {
    /// The stable fields of a region of the current catalogue.
    pub fn from_region(region: &CodeRegion) -> (p: ProjectionRegion)
        ensures
            region_view(p) == code_region_view(*region),
    {
        ProjectionRegion {
            key: region.key.clone(),
            kind: region.kind.clone(),
            domain: clone_opt(&region.domain),
            layer: clone_opt(&region.layer),
            file: region.file.clone(),
            summary: region.summary.clone(),
            hash: region.hash.clone(),
            status: region.status.clone(),
        }
    }
}

/// The stable fields of a region, borrowed, ready to be serialised.
pub struct StableFields<'a> {
    pub key: &'a str,
    pub kind: &'a str,
    pub domain: Option<&'a str>,
    pub layer: Option<&'a str>,
    pub file: &'a str,
    pub summary: &'a str,
    pub hash: &'a str,
    pub status: &'a str,
}

pub open spec fn opt_str_view(o: Option<&str>) -> Option<Seq<char>> {
    match o {
        Some(s) => Some(s@),
        None => None,
    }
}

pub open spec fn fields_view(f: StableFields) -> RegionView {
    RegionView {
        key: f.key@,
        kind: f.kind@,
        domain: opt_str_view(f.domain),
        layer: opt_str_view(f.layer),
        file: f.file@,
        summary: f.summary@,
        hash: f.hash@,
        status: f.status@,
    }
}

fn opt_as_str(o: &Option<String>) -> (r: Option<&str>)
    ensures
        opt_str_view(r) == opt_view(*o),
{
    match o {
        Some(s) => Some(s.as_str()),
        None => None,
    }
}

/// What a region needs to enter the stable projection.
pub trait StableProjectionRow {
    spec fn stable_row(&self) -> RegionView;

    fn stable_fields(&self) -> (f: StableFields<'_>)
        ensures
            fields_view(f) == self.stable_row(),
    ;
}

impl StableProjectionRow for CodeRegion {
    open spec fn stable_row(&self) -> RegionView {
        code_region_view(*self)
    }

    fn stable_fields(&self) -> (f: StableFields<'_>) {
        StableFields {
            key: self.key.as_str(),
            kind: self.kind.as_str(),
            domain: opt_as_str(&self.domain),
            layer: opt_as_str(&self.layer),
            file: self.file.as_str(),
            summary: self.summary.as_str(),
            hash: self.hash.as_str(),
            status: self.status.as_str(),
        }
    }
}

impl StableProjectionRow for ProjectionRegion {
    open spec fn stable_row(&self) -> RegionView {
        region_view(*self)
    }

    fn stable_fields(&self) -> (f: StableFields<'_>) {
        StableFields {
            key: self.key.as_str(),
            kind: self.kind.as_str(),
            domain: opt_as_str(&self.domain),
            layer: opt_as_str(&self.layer),
            file: self.file.as_str(),
            summary: self.summary.as_str(),
            hash: self.hash.as_str(),
            status: self.status.as_str(),
        }
    }
}

/// What `<str as Debug>::fmt` writes for a text: the text between double
/// quotes, with its characters escaped as Rust's `char::escape_debug` rules
/// say (tables of printable characters included).
pub uninterp spec fn str_debug(s: Seq<char>) -> Seq<char>;

/// Calls `<str as Debug>::fmt` through `format!("{:?}", ..)`; claims only that
/// the result is the named value of the text, nothing of its shape.
#[verifier::external_body]
fn debug_str(s: &str) -> (r: String)
    ensures
        r@ == str_debug(s@),
{
    format!("{:?}", s)
}

/// `Some(<debug>)` or `None`, as `<Option<&str> as Debug>` writes them.
pub open spec fn opt_debug(o: Option<Seq<char>>) -> Seq<char> {
    match o {
        Some(s) => "Some("@ + str_debug(s) + ")"@,
        None => "None"@,
    }
}

/// The canonical record of a region: the `Debug` form of the tuple
/// `(1, key, kind, domain, layer, file, summary, hash, status)`, then `\n`.
pub open spec fn record(r: RegionView) -> Seq<char> {
    "(1, "@ + str_debug(r.key) + ", "@ + str_debug(r.kind) + ", "@ + opt_debug(r.domain) + ", "@
        + opt_debug(r.layer) + ", "@ + str_debug(r.file) + ", "@ + str_debug(r.summary) + ", "@
        + str_debug(r.hash) + ", "@ + str_debug(r.status) + ")\n"@
}

pub open spec fn records(rs: Seq<RegionView>) -> Seq<Seq<char>> {
    Seq::new(rs.len(), |i: int| record(rs[i]))
}

/// The stable projection: one record per region, sorted, concatenated.
pub open spec fn projection(rs: Seq<RegionView>) -> Seq<char> {
    records(rs).sort_by(crate::text::text_le()).flatten()
}

/// The three measures of a set of regions.
pub open spec fn measures_spec(rs: Seq<RegionView>) -> Measures {
    Measures {
        regions: rs.len() as u64,
        length: encode_utf8(projection(rs)).len() as u64,
        fnv1a64: fnv_fold(encode_utf8(projection(rs))),
    }
}

proof fn lemma_records_permuted(a: Seq<RegionView>, b: Seq<RegionView>)
    requires
        a.to_multiset() == b.to_multiset(),
    ensures
        records(a).to_multiset() == records(b).to_multiset(),
    decreases a.len(),
{
    broadcast use vstd::seq_lib::group_to_multiset_ensures;
    broadcast use vstd::multiset::group_multiset_axioms;

    vstd::seq_lib::to_multiset_len(a);
    vstd::seq_lib::to_multiset_len(b);
    if a.len() == 0 {
        assert(b.len() == 0);
        assert(records(a) =~= Seq::<Seq<char>>::empty());
        assert(records(b) =~= Seq::<Seq<char>>::empty());
    } else {
        let x = a[0];
        assert(a.to_multiset().count(x) > 0);
        assert(b.contains(x));
        let j = choose|j: int| 0 <= j < b.len() && b[j] == x;
        vstd::seq_lib::to_multiset_remove(b, j);
        vstd::seq_lib::to_multiset_remove(a, 0);
        assert(a.remove(0) =~= a.drop_first());
        lemma_records_permuted(a.drop_first(), b.remove(j));
        assert(records(b.remove(j)) =~= records(b).remove(j));
        assert(records(a.drop_first()) =~= records(a).remove(0));
        vstd::seq_lib::to_multiset_remove(records(b), j);
        vstd::seq_lib::to_multiset_remove(records(a), 0);
        assert(records(a).to_multiset() =~= records(a).remove(0).to_multiset().insert(record(x)));
        assert(records(b).to_multiset() =~= records(b).remove(j).to_multiset().insert(record(x)));
    }
}

/// The measures of a set of regions do not depend on the order in which the
/// regions come: any two orders of the same regions measure the same.
pub proof fn law_measures_order_independent(a: Seq<RegionView>, b: Seq<RegionView>)
    requires
        a.to_multiset() == b.to_multiset(),
    ensures
        measures_spec(a) == measures_spec(b),
{
    broadcast use vstd::seq_lib::group_to_multiset_ensures;

    lemma_records_permuted(a, b);
    crate::text::lemma_seq_le_total_ordering();
    records(a).lemma_sort_by_ensures(crate::text::text_le());
    records(b).lemma_sort_by_ensures(crate::text::text_le());
    vstd::seq_lib::lemma_sorted_unique(
        records(a).sort_by(crate::text::text_le()),
        records(b).sort_by(crate::text::text_le()),
        crate::text::text_le(),
    );
    vstd::seq_lib::to_multiset_len(a);
    vstd::seq_lib::to_multiset_len(b);
}

pub open spec fn rows_view<R: StableProjectionRow>(rs: Seq<R>) -> Seq<RegionView> {
    Seq::new(rs.len(), |i: int| rs[i].stable_row())
}

proof fn lemma_rows_permuted<R: StableProjectionRow>(a: Seq<R>, b: Seq<R>)
    requires
        a.to_multiset() == b.to_multiset(),
    ensures
        rows_view(a).to_multiset() == rows_view(b).to_multiset(),
    decreases a.len(),
{
    broadcast use vstd::seq_lib::group_to_multiset_ensures;
    broadcast use vstd::multiset::group_multiset_axioms;

    vstd::seq_lib::to_multiset_len(a);
    vstd::seq_lib::to_multiset_len(b);
    if a.len() == 0 {
        assert(b.len() == 0);
        assert(rows_view(a) =~= Seq::<RegionView>::empty());
        assert(rows_view(b) =~= Seq::<RegionView>::empty());
    } else {
        let x = a[0];
        assert(a.to_multiset().count(x) > 0);
        assert(b.contains(x));
        let j = choose|j: int| 0 <= j < b.len() && b[j] == x;
        vstd::seq_lib::to_multiset_remove(b, j);
        vstd::seq_lib::to_multiset_remove(a, 0);
        assert(a.remove(0) =~= a.drop_first());
        lemma_rows_permuted(a.drop_first(), b.remove(j));
        assert(rows_view(b.remove(j)) =~= rows_view(b).remove(j));
        assert(rows_view(a.drop_first()) =~= rows_view(a).remove(0));
        vstd::seq_lib::to_multiset_remove(rows_view(b), j);
        vstd::seq_lib::to_multiset_remove(rows_view(a), 0);
        assert(rows_view(a).to_multiset() =~= rows_view(a).remove(0).to_multiset().insert(x.stable_row()));
        assert(rows_view(b).to_multiset() =~= rows_view(b).remove(j).to_multiset().insert(x.stable_row()));
    }
}

/// Measuring the same regions in any order gives the same measures.
pub proof fn law_measure_any_order<R: StableProjectionRow>(a: Seq<R>, b: Seq<R>)
    requires
        a.to_multiset() == b.to_multiset(),
    ensures
        measures_spec(rows_view(a)) == measures_spec(rows_view(b)),
{
    lemma_rows_permuted(a, b);
    law_measures_order_independent(rows_view(a), rows_view(b));
}

fn push_opt_debug(out: &mut Vec<char>, o: Option<&str>)
    ensures
        final(out)@ == old(out)@ + opt_debug(opt_str_view(o)),
{
    match o {
        Some(s) => {
            push_str_chars(out, "Some(");
            push_str_chars(out, debug_str(s).as_str());
            push_str_chars(out, ")");
        },
        None => {
            push_str_chars(out, "None");
        },
    }
    assert(final(out)@ =~= old(out)@ + opt_debug(opt_str_view(o)));
}

/// The canonical record of a region's stable fields.
fn record_of(f: &StableFields) -> (v: Vec<char>)
    ensures
        v@ == record(fields_view(*f)),
{
    let mut out: Vec<char> = Vec::new();
    push_str_chars(&mut out, "(1, ");
    push_str_chars(&mut out, debug_str(f.key).as_str());
    push_str_chars(&mut out, ", ");
    push_str_chars(&mut out, debug_str(f.kind).as_str());
    push_str_chars(&mut out, ", ");
    push_opt_debug(&mut out, f.domain);
    push_str_chars(&mut out, ", ");
    push_opt_debug(&mut out, f.layer);
    push_str_chars(&mut out, ", ");
    push_str_chars(&mut out, debug_str(f.file).as_str());
    push_str_chars(&mut out, ", ");
    push_str_chars(&mut out, debug_str(f.summary).as_str());
    push_str_chars(&mut out, ", ");
    push_str_chars(&mut out, debug_str(f.hash).as_str());
    push_str_chars(&mut out, ", ");
    push_str_chars(&mut out, debug_str(f.status).as_str());
    push_str_chars(&mut out, ")\n");
    assert(out@ =~= record(fields_view(*f)));
    out
}

/// The stable projection of a set of regions: one canonical record per
/// region, sorted, concatenated. No line position, time, path or other
/// outside state takes part.
pub fn stable_projection<R: StableProjectionRow>(regions: &[R]) -> (s: String)
    ensures
        s@ == projection(rows_view(regions@)),
{
    broadcast use vstd::seq_lib::group_to_multiset_ensures;
    broadcast use vstd::seq::Seq::lemma_flatten_push;

    let ghost rv = rows_view(regions@);
    let ghost recs = records(rv);
    let mut sorted: Vec<Vec<char>> = Vec::new();
    let mut i: usize = 0;
    assert(crate::text::rows(sorted@) =~= Seq::<Seq<char>>::empty());
    assert(recs.take(0) =~= Seq::<Seq<char>>::empty());
    while i < regions.len()
        invariant
            i <= regions@.len(),
            rv == rows_view(regions@),
            recs == records(rv),
            vstd::relations::sorted_by(crate::text::rows(sorted@), crate::text::text_le()),
            crate::text::rows(sorted@).to_multiset() == recs.take(i as int).to_multiset(),
        decreases regions.len() - i,
    {
        let f = regions[i].stable_fields();
        let r = record_of(&f);
        let ghost rs = r@;
        assert(recs.take(i + 1) =~= recs.take(i as int).push(rs));
        proof {
            vstd::seq_lib::to_multiset_build(recs.take(i as int), rs);
        }
        crate::text::insert_text(&mut sorted, r);
        i = i + 1;
    }
    proof {
        assert(recs.take(i as int) =~= recs);
        lemma_seq_le_total_ordering();
        recs.lemma_sort_by_ensures(crate::text::text_le());
        vstd::seq_lib::lemma_sorted_unique(crate::text::rows(sorted@), recs.sort_by(crate::text::text_le()), crate::text::text_le());
    }
    let ghost srt = crate::text::rows(sorted@);
    let mut out: Vec<char> = Vec::new();
    let mut j: usize = 0;
    assert(srt.take(0) =~= Seq::<Seq<char>>::empty());
    while j < sorted.len()
        invariant
            j <= sorted@.len(),
            srt == crate::text::rows(sorted@),
            out@ == srt.take(j as int).flatten(),
        decreases sorted.len() - j,
    {
        assert(srt.take(j + 1) =~= srt.take(j as int).push(sorted@[j as int]@));
        proof {
            srt.take(j as int).lemma_flatten_push(sorted@[j as int]@);
        }
        push_all(&mut out, &sorted[j]);
        j = j + 1;
    }
    assert(srt.take(j as int) =~= srt);
    string_from(&out)
}

/// Measures a set of regions: how many, the byte length of the stable
/// projection, and its FNV-1a 64.
pub fn measure<R: StableProjectionRow>(regions: &[R]) -> (m: Measures)
    ensures
        m == measures_spec(rows_view(regions@)),
{
    let projection = stable_projection(regions);
    let bytes = projection.as_str().as_bytes();
    Measures { regions: regions.len() as u64, length: bytes.len() as u64, fnv1a64: fnv_bytes(bytes) }
}

/// What one rule consumed during a reconstruction.
#[derive(Debug, Clone, PartialEq, Eq)]
pub struct RuleConsumption {
    pub op: &'static str,
    pub selector: String,
    pub expected: u64,
    pub consumed: u64,
}

pub struct ConsumptionView {
    pub op: Seq<char>,
    pub selector: Seq<char>,
    pub expected: u64,
    pub consumed: u64,
}

pub open spec fn consumption_view(c: RuleConsumption) -> ConsumptionView {
    ConsumptionView { op: c.op@, selector: c.selector@, expected: c.expected, consumed: c.consumed }
}

pub open spec fn ledger_view(l: Seq<RuleConsumption>) -> Seq<ConsumptionView> {
    Seq::new(l.len(), |i: int| consumption_view(l[i]))
}

/// Whether an exclusion rule removes a region.
pub open spec fn excludes(rule: RuleView, r: RegionView) -> bool {
    match rule {
        RuleView::ExcludeKey { key, .. } => r.key == key,
        RuleView::ExcludeFilePrefix { prefix, .. } => has_prefix(r.file, prefix),
        RuleView::ExcludeFile { file, .. } => r.file == file,
        RuleView::ExcludeKeyPrefix { prefix, .. } => has_prefix(r.key, prefix),
        _ => false,
    }
}

/// How many regions an exclusion removes.
pub open spec fn count_excluded(rs: Seq<RegionView>, rule: RuleView) -> nat
    decreases rs.len(),
{
    if rs.len() == 0 {
        0
    } else {
        count_excluded(rs.drop_last(), rule) + if excludes(rule, rs.last()) {
            1nat
        } else {
            0nat
        }
    }
}

/// The regions an exclusion keeps, in order.
pub open spec fn retained(rs: Seq<RegionView>, rule: RuleView) -> Seq<RegionView>
    decreases rs.len(),
{
    if rs.len() == 0 {
        rs
    } else if excludes(rule, rs.last()) {
        retained(rs.drop_last(), rule)
    } else {
        retained(rs.drop_last(), rule).push(rs.last())
    }
}

/// How many regions have the key.
pub open spec fn key_matches(rs: Seq<RegionView>, key: Seq<char>) -> nat
    decreases rs.len(),
{
    if rs.len() == 0 {
        0
    } else {
        key_matches(rs.drop_last(), key) + if rs.last().key == key {
            1nat
        } else {
            0nat
        }
    }
}

/// Index of the first region with the key.
pub open spec fn first_key(rs: Seq<RegionView>, key: Seq<char>) -> int {
    choose|i: int| 0 <= i < rs.len() && rs[i].key == key && forall|j: int| 0 <= j < i ==> rs[j].key != key
}

/// A region has the path and, where declared, the domain and layer.
pub open spec fn same_identity(
    r: RegionView,
    file: Seq<char>,
    domain: Option<Seq<char>>,
    layer: Option<Seq<char>>,
) -> bool {
    &&& r.file == file
    &&& (domain matches Some(d) ==> r.domain == Some(d))
    &&& (layer matches Some(l) ==> r.layer == Some(l))
}

pub open spec fn identity_matches(
    rs: Seq<RegionView>,
    file: Seq<char>,
    domain: Option<Seq<char>>,
    layer: Option<Seq<char>>,
) -> nat
    decreases rs.len(),
{
    if rs.len() == 0 {
        0
    } else {
        identity_matches(rs.drop_last(), file, domain, layer) + if same_identity(
            rs.last(),
            file,
            domain,
            layer,
        ) {
            1nat
        } else {
            0nat
        }
    }
}

pub open spec fn first_identity(
    rs: Seq<RegionView>,
    file: Seq<char>,
    domain: Option<Seq<char>>,
    layer: Option<Seq<char>>,
) -> int {
    choose|i: int|
        0 <= i < rs.len() && same_identity(rs[i], file, domain, layer) && forall|j: int|
            0 <= j < i ==> !same_identity(rs[j], file, domain, layer)
}

/// Why an override found no region: its key changed (exactly one region
/// with the declared path and metadata survives under another key) or the
/// region was removed.
pub open spec fn missing_failure(
    rs: Seq<RegionView>,
    key: Seq<char>,
    file: Option<Seq<char>>,
    domain: Option<Seq<char>>,
    layer: Option<Seq<char>>,
) -> FailureView {
    match file {
        Some(f) => if identity_matches(rs, f, domain, layer) == 1 {
            FailureView::KeyChanged { expected: key, found: rs[first_identity(rs, f, domain, layer)].key }
        } else {
            FailureView::RegionRemoved { key }
        },
        None => FailureView::RegionRemoved { key },
    }
}

pub open spec fn text_or_empty(o: Option<Seq<char>>) -> Seq<char> {
    match o {
        Some(s) => s,
        None => Seq::empty(),
    }
}

/// The declared path and metadata of an override against its region.
pub open spec fn identity_check(
    g: RegionView,
    key: Seq<char>,
    file: Option<Seq<char>>,
    domain: Option<Seq<char>>,
    layer: Option<Seq<char>>,
) -> Option<FailureView> {
    if file matches Some(e) && g.file != e {
        Some(FailureView::PathChanged { key, expected: file->0, found: g.file })
    } else if domain matches Some(e) && text_or_empty(g.domain) != e {
        Some(
            FailureView::MetadataChanged {
                key,
                field: "domain"@,
                expected: domain->0,
                found: text_or_empty(g.domain),
            },
        )
    } else if layer matches Some(e) && text_or_empty(g.layer) != e {
        Some(
            FailureView::MetadataChanged {
                key,
                field: "layer"@,
                expected: layer->0,
                found: text_or_empty(g.layer),
            },
        )
    } else {
        None
    }
}

pub open spec fn entry(rule: RuleView, expected: u64, consumed: u64) -> ConsumptionView {
    ConsumptionView { op: rule_op(rule), selector: rule_selector(rule), expected, consumed }
}

/// An override of one region: found by its key, checked, then restored.
pub open spec fn override_step(rs: Seq<RegionView>, rule: RuleView) -> Result<
    (Seq<RegionView>, ConsumptionView),
    FailureView,
> {
    let key = rule_selector(rule);
    let n = key_matches(rs, key);
    let idx = first_key(rs, key);
    let g = rs[idx];
    match rule {
        RuleView::OverrideHash { key, from, to, expect_file, expect_domain, expect_layer } => {
            if n == 0 {
                Err(missing_failure(rs, key, expect_file, expect_domain, expect_layer))
            } else if n > 1 {
                Err(FailureView::SelectorAmbiguous { key, matches: n as usize })
            } else if identity_check(g, key, expect_file, expect_domain, expect_layer) is Some {
                Err(identity_check(g, key, expect_file, expect_domain, expect_layer)->0)
            } else if g.hash != from {
                Err(FailureView::OverrideStaleBase { key, expected: from, found: g.hash })
            } else {
                Ok((rs.update(idx, RegionView { hash: to, ..g }), entry(rule, 1, 1)))
            }
        },
        RuleView::OverrideRegion {
            key,
            from_hash,
            to_hash,
            from_summary,
            to_summary,
            expect_file,
            to_file,
            expect_domain,
            expect_layer,
        } => {
            if n == 0 {
                Err(missing_failure(rs, key, expect_file, expect_domain, expect_layer))
            } else if n > 1 {
                Err(FailureView::SelectorAmbiguous { key, matches: n as usize })
            } else if identity_check(g, key, expect_file, expect_domain, expect_layer) is Some {
                Err(identity_check(g, key, expect_file, expect_domain, expect_layer)->0)
            } else if from_hash matches Some(e) && g.hash != e {
                Err(FailureView::OverrideStaleBase { key, expected: from_hash->0, found: g.hash })
            } else if from_summary matches Some(e) && g.summary != e {
                Err(FailureView::OverrideStaleSummary { key, expected: from_summary->0, found: g.summary })
            } else {
                let h = match to_hash {
                    Some(v) => v,
                    None => g.hash,
                };
                let sm = match to_summary {
                    Some(v) => v,
                    None => g.summary,
                };
                let f = match to_file {
                    Some(v) => v,
                    None => g.file,
                };
                Ok((rs.update(idx, RegionView { hash: h, summary: sm, file: f, ..g }), entry(rule, 1, 1)))
            }
        },
        _ => Ok((rs, entry(rule, 1, 1))),
    }
}

/// One rule applied to the regions.
pub open spec fn rule_step(rs: Seq<RegionView>, rule: RuleView) -> Result<
    (Seq<RegionView>, ConsumptionView),
    FailureView,
> {
    match rule {
        RuleView::OverrideHash { .. } => override_step(rs, rule),
        RuleView::OverrideRegion { .. } => override_step(rs, rule),
        RuleView::MaterializeRegion { key, kind, domain, layer, file, summary, hash, status } => {
            if key_matches(rs, key) > 0 {
                Err(FailureView::MaterializationCollision { key })
            } else {
                Ok(
                    (
                        rs.push(RegionView { key, kind, domain, layer, file, summary, hash, status }),
                        entry(rule, 1, 1),
                    ),
                )
            }
        },
        _ => {
            let c = count_excluded(rs, rule);
            if c == 0 {
                Err(FailureView::ExclusionNoMatch { selector: rule_selector(rule) })
            } else if c != super::rule_expected(rule) {
                Err(
                    FailureView::ExclusionPartiallyConsumed {
                        selector: rule_selector(rule),
                        expected: super::rule_expected(rule),
                        consumed: c as u64,
                    },
                )
            } else {
                Ok((retained(rs, rule), entry(rule, super::rule_expected(rule), c as u64)))
            }
        },
    }
}

/// The first ledger entry that consumed nothing, if any.
pub open spec fn unconsumed(l: Seq<ConsumptionView>) -> Option<Seq<char>>
    decreases l.len(),
{
    if l.len() == 0 {
        None
    } else if l[0].consumed == 0 {
        Some(l[0].selector)
    } else {
        unconsumed(l.drop_first())
    }
}

/// The rules from `i` on, applied in order to the regions with the ledger so
/// far.
pub open spec fn apply_from(
    rs: Seq<RegionView>,
    rules: Seq<RuleView>,
    i: int,
    ledger: Seq<ConsumptionView>,
) -> Result<(Seq<RegionView>, Seq<ConsumptionView>), FailureView>
    decreases rules.len() - i,
{
    if i < 0 || i >= rules.len() {
        match unconsumed(ledger) {
            Some(sel) => Err(FailureView::OverrideNotConsumed { key: sel }),
            None => Ok((rs, ledger)),
        }
    } else {
        match rule_step(rs, rules[i]) {
            Err(e) => Err(e),
            Ok((rs2, c)) => apply_from(rs2, rules, i + 1, ledger.push(c)),
        }
    }
}

/// A set of rules applied to a state, in canonical order (exclusions, then
/// overrides, then materializations), with the consumption of each.
pub open spec fn applied(rs: Seq<RegionView>, rules: Seq<RuleView>) -> Result<
    (Seq<RegionView>, Seq<ConsumptionView>),
    FailureView,
> {
    apply_from(rs, sorted_rules(rules), 0, Seq::empty())
}

fn clone_region(r: &ProjectionRegion) -> (c: ProjectionRegion)
    ensures
        c == *r,
{
    ProjectionRegion {
        key: r.key.clone(),
        kind: r.kind.clone(),
        domain: clone_opt(&r.domain),
        layer: clone_opt(&r.layer),
        file: r.file.clone(),
        summary: r.summary.clone(),
        hash: r.hash.clone(),
        status: r.status.clone(),
    }
}

fn owned(v: &str) -> (s: String)
    ensures
        s@ == v@,
{
    v.to_owned()
}

fn text_has_prefix(s: &String, p: &String) -> (b: bool)
    ensures
        b == has_prefix(s@, p@),
{
    crate::text::matches_at(&chars_of(s.as_str()), 0, &chars_of(p.as_str()))
}

fn excludes_exec(rule: &Rule, r: &ProjectionRegion) -> (b: bool)
    ensures
        b == excludes(rule_view(*rule), region_view(*r)),
{
    match rule {
        Rule::ExcludeKey { key, .. } => crate::text::str_eq(r.key.as_str(), key.as_str()),
        Rule::ExcludeFilePrefix { prefix, .. } => text_has_prefix(&r.file, prefix),
        Rule::ExcludeFile { file, .. } => crate::text::str_eq(r.file.as_str(), file.as_str()),
        Rule::ExcludeKeyPrefix { prefix, .. } => text_has_prefix(&r.key, prefix),
        _ => false,
    }
}

/// Applies an exclusion: how many regions it removes, and the others.
fn exclusion_exec(regions: &Vec<ProjectionRegion>, rule: &Rule) -> (r: (usize, Vec<ProjectionRegion>))
    ensures
        r.0 == count_excluded(regions_view(regions@), rule_view(*rule)),
        regions_view(r.1@) == retained(regions_view(regions@), rule_view(*rule)),
{
    let ghost rv = regions_view(regions@);
    let ghost rl = rule_view(*rule);
    let mut kept: Vec<ProjectionRegion> = Vec::new();
    let mut count: usize = 0;
    let mut i: usize = 0;
    assert(rv.take(0) =~= Seq::<RegionView>::empty());
    assert(regions_view(kept@) =~= Seq::<RegionView>::empty());
    while i < regions.len()
        invariant
            i <= regions@.len(),
            rv == regions_view(regions@),
            rl == rule_view(*rule),
            count == count_excluded(rv.take(i as int), rl),
            count <= i,
            regions_view(kept@) == retained(rv.take(i as int), rl),
        decreases regions.len() - i,
    {
        assert(rv.take(i + 1).drop_last() =~= rv.take(i as int));
        assert(rv.take(i + 1).last() == region_view(regions@[i as int]));
        if excludes_exec(rule, &regions[i]) {
            count = count + 1;
        } else {
            let ghost before = regions_view(kept@);
            kept.push(clone_region(&regions[i]));
            assert(regions_view(kept@) =~= before.push(region_view(regions@[i as int])));
        }
        i = i + 1;
    }
    assert(rv.take(i as int) =~= rv);
    (count, kept)
}

/// How many regions have the key, and the index of the first.
fn key_positions(regions: &Vec<ProjectionRegion>, key: &String) -> (r: (usize, usize))
    ensures
        r.0 == key_matches(regions_view(regions@), key@),
        r.0 > 0 ==> r.1 == first_key(regions_view(regions@), key@) && r.1 < regions@.len(),
{
    let ghost rv = regions_view(regions@);
    let mut count: usize = 0;
    let mut first: usize = 0;
    let mut i: usize = 0;
    assert(rv.take(0) =~= Seq::<RegionView>::empty());
    while i < regions.len()
        invariant
            i <= regions@.len(),
            rv == regions_view(regions@),
            count == key_matches(rv.take(i as int), key@),
            count <= i,
            count > 0 ==> first < i && rv[first as int].key == key@ && forall|j: int|
                0 <= j < first ==> rv[j].key != key@,
            count == 0 ==> forall|j: int| 0 <= j < i ==> rv[j].key != key@,
        decreases regions.len() - i,
    {
        assert(rv.take(i + 1).drop_last() =~= rv.take(i as int));
        assert(rv.take(i + 1).last() == rv[i as int]);
        assert(rv[i as int] == region_view(regions@[i as int]));
        if crate::text::str_eq(regions[i].key.as_str(), key.as_str()) {
            if count == 0 {
                first = i;
            }
            count = count + 1;
        }
        i = i + 1;
    }
    assert(rv.take(i as int) =~= rv);
    proof {
        if count > 0 {
            let w = first_key(rv, key@);
            assert(0 <= first < rv.len() && rv[first as int].key == key@ && forall|j: int|
                0 <= j < first ==> rv[j].key != key@);
            if w < first {
                assert(rv[w].key == key@);
            }
            if first < w {
                assert(rv[first as int].key != key@);
            }
        }
    }
    (count, first)
}

fn opt_eq(o: &Option<String>, d: &String) -> (b: bool)
    ensures
        b == (opt_view(*o) == Some(d@)),
{
    match o {
        Some(v) => crate::text::str_eq(v.as_str(), d.as_str()),
        None => false,
    }
}

fn same_identity_exec(
    r: &ProjectionRegion,
    file: &String,
    domain: &Option<String>,
    layer: &Option<String>,
) -> (b: bool)
    ensures
        b == same_identity(region_view(*r), file@, opt_view(*domain), opt_view(*layer)),
{
    crate::text::str_eq(r.file.as_str(), file.as_str()) && match domain {
        Some(d) => opt_eq(&r.domain, d),
        None => true,
    } && match layer {
        Some(l) => opt_eq(&r.layer, l),
        None => true,
    }
}

/// Tells a removed region from a changed key when an override finds no
/// match.
fn missing_override_failure(
    regions: &Vec<ProjectionRegion>,
    key: &String,
    file: &Option<String>,
    domain: &Option<String>,
    layer: &Option<String>,
) -> (f: HarnessFailure)
    ensures
        failure_view(f) == missing_failure(
            regions_view(regions@),
            key@,
            opt_view(*file),
            opt_view(*domain),
            opt_view(*layer),
        ),
{
    let ghost rv = regions_view(regions@);
    match file {
        Some(fl) => {
            let ghost d = opt_view(*domain);
            let ghost l = opt_view(*layer);
            let mut count: usize = 0;
            let mut first: usize = 0;
            let mut i: usize = 0;
            assert(rv.take(0) =~= Seq::<RegionView>::empty());
            while i < regions.len()
                invariant
                    i <= regions@.len(),
                    rv == regions_view(regions@),
                    d == opt_view(*domain),
                    l == opt_view(*layer),
                    count == identity_matches(rv.take(i as int), fl@, d, l),
                    count <= i,
                    count > 0 ==> first < i && same_identity(rv[first as int], fl@, d, l) && forall|j: int|
                        0 <= j < first ==> !same_identity(rv[j], fl@, d, l),
                    count == 0 ==> forall|j: int| 0 <= j < i ==> !same_identity(rv[j], fl@, d, l),
                decreases regions.len() - i,
            {
                assert(rv.take(i + 1).drop_last() =~= rv.take(i as int));
                assert(rv.take(i + 1).last() == rv[i as int]);
                assert(rv[i as int] == region_view(regions@[i as int]));
                if same_identity_exec(&regions[i], fl, domain, layer) {
                    if count == 0 {
                        first = i;
                    }
                    count = count + 1;
                }
                i = i + 1;
            }
            assert(rv.take(i as int) =~= rv);
            if count == 1 {
                proof {
                    let w = first_identity(rv, fl@, d, l);
                    assert(0 <= first < rv.len() && same_identity(rv[first as int], fl@, d, l) && forall|j: int|
                        0 <= j < first ==> !same_identity(rv[j], fl@, d, l));
                    if w < first {
                        assert(same_identity(rv[w], fl@, d, l));
                    }
                    if first < w {
                        assert(!same_identity(rv[first as int], fl@, d, l));
                    }
                    assert(rv[first as int] == region_view(regions@[first as int]));
                }
                return HarnessFailure::KeyChanged { expected: key.clone(), found: regions[first].key.clone() };
            }
            HarnessFailure::RegionRemoved { key: key.clone() }
        },
        None => HarnessFailure::RegionRemoved { key: key.clone() },
    }
}

fn text_or_empty_exec(o: &Option<String>) -> (s: String)
    ensures
        s@ == text_or_empty(opt_view(*o)),
{
    match o {
        Some(v) => v.clone(),
        None => String::new(),
    }
}

fn identity_check_exec(
    g: &ProjectionRegion,
    key: &String,
    file: &Option<String>,
    domain: &Option<String>,
    layer: &Option<String>,
) -> (r: Option<HarnessFailure>)
    ensures
        match identity_check(region_view(*g), key@, opt_view(*file), opt_view(*domain), opt_view(*layer)) {
            Some(f) => r matches Some(e) && failure_view(e) == f,
            None => r is None,
        },
{
    match file {
        Some(e) => {
            if !crate::text::str_eq(g.file.as_str(), e.as_str()) {
                return Some(HarnessFailure::PathChanged { key: key.clone(), expected: e.clone(), found: g.file.clone() });
            }
        },
        None => {},
    }
    match domain {
        Some(e) => {
            let found = text_or_empty_exec(&g.domain);
            if !crate::text::str_eq(found.as_str(), e.as_str()) {
                return Some(
                    HarnessFailure::MetadataChanged { key: key.clone(), field: owned("domain"), expected: e.clone(), found },
                );
            }
        },
        None => {},
    }
    match layer {
        Some(e) => {
            let found = text_or_empty_exec(&g.layer);
            if !crate::text::str_eq(found.as_str(), e.as_str()) {
                return Some(
                    HarnessFailure::MetadataChanged { key: key.clone(), field: owned("layer"), expected: e.clone(), found },
                );
            }
        },
        None => {},
    }
    None
}

fn consumption(rule: &Rule, expected: u64, consumed: u64) -> (c: RuleConsumption)
    ensures
        consumption_view(c) == entry(rule_view(*rule), expected, consumed),
{
    RuleConsumption { op: rule.op(), selector: owned(rule.selector()), expected, consumed }
}

/// Applies an override to the regions.
#[verifier::rlimit(50)]
fn override_exec(regions: &mut Vec<ProjectionRegion>, rule: &Rule) -> (r: Result<RuleConsumption, HarnessFailure>)
    requires
        *rule is OverrideHash || *rule is OverrideRegion,
    ensures
        match override_step(regions_view(old(regions)@), rule_view(*rule)) {
            Ok((rs, c)) => r matches Ok(x) && consumption_view(x) == c && regions_view(final(regions)@) == rs,
            Err(f) => r matches Err(e) && failure_view(e) == f,
        },
{
    let ghost rv = regions_view(regions@);
    let (key, expect_file, expect_domain, expect_layer) = match rule {
        Rule::OverrideHash { key, expect_file, expect_domain, expect_layer, .. } => (key, expect_file, expect_domain, expect_layer),
        Rule::OverrideRegion { key, expect_file, expect_domain, expect_layer, .. } => (key, expect_file, expect_domain, expect_layer),
        _ => {
            return Err(HarnessFailure::RegionRemoved { key: owned(rule.selector()) });
        },
    };
    let (n, idx) = key_positions(regions, key);
    if n == 0 {
        return Err(missing_override_failure(regions, key, expect_file, expect_domain, expect_layer));
    }
    if n > 1 {
        return Err(HarnessFailure::SelectorAmbiguous { key: key.clone(), matches: n });
    }
    assert(rv[idx as int] == region_view(regions@[idx as int]));
    match identity_check_exec(&regions[idx], key, expect_file, expect_domain, expect_layer) {
        Some(f) => {
            return Err(f);
        },
        None => {},
    }
    let mut g = clone_region(&regions[idx]);
    match rule {
        Rule::OverrideHash { from, to, .. } => {
            if !crate::text::str_eq(g.hash.as_str(), from.as_str()) {
                return Err(HarnessFailure::OverrideStaleBase { key: key.clone(), expected: from.clone(), found: g.hash.clone() });
            }
            g.hash = to.clone();
        },
        Rule::OverrideRegion { from_hash, to_hash, from_summary, to_summary, to_file, .. } => {
            match from_hash {
                Some(e) => {
                    if !crate::text::str_eq(g.hash.as_str(), e.as_str()) {
                        return Err(
                            HarnessFailure::OverrideStaleBase { key: key.clone(), expected: e.clone(), found: g.hash.clone() },
                        );
                    }
                },
                None => {},
            }
            match from_summary {
                Some(e) => {
                    if !crate::text::str_eq(g.summary.as_str(), e.as_str()) {
                        return Err(
                            HarnessFailure::OverrideStaleSummary {
                                key: key.clone(),
                                expected: e.clone(),
                                found: g.summary.clone(),
                            },
                        );
                    }
                },
                None => {},
            }
            match to_hash {
                Some(v) => {
                    g.hash = v.clone();
                },
                None => {},
            }
            match to_summary {
                Some(v) => {
                    g.summary = v.clone();
                },
                None => {},
            }
            match to_file {
                Some(v) => {
                    g.file = v.clone();
                },
                None => {},
            }
        },
        _ => {},
    }
    let ghost gv = region_view(g);
    regions.set(idx, g);
    assert(regions_view(regions@) =~= rv.update(idx as int, gv));
    Ok(consumption(rule, 1, 1))
}

/// Applies one rule to the regions.
fn rule_exec(regions: &mut Vec<ProjectionRegion>, rule: &Rule) -> (r: Result<RuleConsumption, HarnessFailure>)
    ensures
        match rule_step(regions_view(old(regions)@), rule_view(*rule)) {
            Ok((rs, c)) => r matches Ok(x) && consumption_view(x) == c && regions_view(final(regions)@) == rs,
            Err(f) => r matches Err(e) && failure_view(e) == f,
        },
{
    match rule {
        Rule::OverrideHash { .. } => override_exec(regions, rule),
        Rule::OverrideRegion { .. } => override_exec(regions, rule),
        Rule::MaterializeRegion { key, kind, domain, layer, file, summary, hash, status } => {
            let (n, _) = key_positions(regions, key);
            if n > 0 {
                return Err(HarnessFailure::MaterializationCollision { key: key.clone() });
            }
            let ghost rv = regions_view(regions@);
            let p = ProjectionRegion {
                key: key.clone(),
                kind: kind.clone(),
                domain: clone_opt(domain),
                layer: clone_opt(layer),
                file: file.clone(),
                summary: summary.clone(),
                hash: hash.clone(),
                status: status.clone(),
            };
            regions.push(p);
            assert(regions_view(regions@) =~= rv.push(region_view(p)));
            Ok(consumption(rule, 1, 1))
        },
        _ => {
            let (c, kept) = exclusion_exec(regions, rule);
            if c == 0 {
                return Err(HarnessFailure::ExclusionNoMatch { selector: owned(rule.selector()) });
            }
            let expected = rule.expected_matches();
            if c as u64 != expected {
                return Err(
                    HarnessFailure::ExclusionPartiallyConsumed {
                        selector: owned(rule.selector()),
                        expected,
                        consumed: c as u64,
                    },
                );
            }
            *regions = kept;
            Ok(consumption(rule, expected, c as u64))
        },
    }
}

/// Applies a set of rules to a state, checking the consumption of this set:
/// exclusions consume exactly their budget and at least one match, overrides
/// and materializations exactly one; the order is fixed whatever the text
/// order of the rules.
pub fn apply_rules(entrada: Vec<ProjectionRegion>, regras: &[Rule]) -> (r: Result<
    (Vec<ProjectionRegion>, Vec<RuleConsumption>),
    HarnessFailure,
>)
    ensures
        match applied(regions_view(entrada@), rules_view(regras@)) {
            Ok((rs, l)) => r matches Ok((x, y)) && regions_view(x@) == rs && ledger_view(y@) == l,
            Err(f) => r matches Err(e) && failure_view(e) == f,
        },
{
    let mut regions = entrada;
    let mut ledger: Vec<RuleConsumption> = Vec::new();
    let mut rules: Vec<Rule> = Vec::new();
    let mut k: usize = 0;
    while k < regras.len()
        invariant
            k <= regras@.len(),
            rules@ == regras@.take(k as int),
        decreases regras.len() - k,
    {
        rules.push(clone_rule(&regras[k]));
        assert(rules@ =~= regras@.take(k + 1));
        k = k + 1;
    }
    assert(regras@.take(k as int) =~= regras@);
    sort_rules(&mut rules);
    let ghost sorted = rules_view(rules@);
    assert(ledger_view(ledger@) =~= Seq::<ConsumptionView>::empty());
    let mut i: usize = 0;
    while i < rules.len()
        invariant
            i <= rules@.len(),
            sorted == rules_view(rules@),
            sorted == sorted_rules(rules_view(regras@)),
            applied(regions_view(entrada@), rules_view(regras@)) == apply_from(
                regions_view(regions@),
                sorted,
                i as int,
                ledger_view(ledger@),
            ),
        decreases rules.len() - i,
    {
        assert(sorted[i as int] == rule_view(rules@[i as int]));
        let c = rule_exec(&mut regions, &rules[i]);
        match c {
            Ok(c) => {
                let ghost before = ledger_view(ledger@);
                ledger.push(c);
                assert(ledger_view(ledger@) =~= before.push(consumption_view(c)));
            },
            Err(e) => {
                return Err(e);
            },
        }
        i = i + 1;
    }
    let ghost lv = ledger_view(ledger@);
    let mut j: usize = 0;
    assert(lv.skip(0) =~= lv);
    while j < ledger.len()
        invariant
            j <= ledger@.len(),
            lv == ledger_view(ledger@),
            applied(regions_view(entrada@), rules_view(regras@)) == (match unconsumed(lv) {
                Some(sel) => Err(FailureView::OverrideNotConsumed { key: sel }),
                None => Ok((regions_view(regions@), lv)),
            }),
            unconsumed(lv) == unconsumed(lv.skip(j as int)),
        decreases ledger.len() - j,
    {
        assert(lv.skip(j as int)[0] == consumption_view(ledger@[j as int]));
        assert(lv.skip(j as int).drop_first() =~= lv.skip(j + 1));
        if ledger[j].consumed == 0 {
            return Err(HarnessFailure::OverrideNotConsumed { key: ledger[j].selector.clone() });
        }
        j = j + 1;
    }
    assert(lv.skip(j as int).len() == 0);
    Ok((regions, ledger))
}

/// A successful reconstruction: the historical state and what each rule
/// consumed.
#[derive(Debug, Clone, PartialEq, Eq)]
pub struct Reconstruction {
    pub regions: Vec<ProjectionRegion>,
    pub ledger: Vec<RuleConsumption>,
}

impl Reconstruction {
    /// The measures of the reconstructed state.
    pub fn measures(&self) -> (m: Measures)
        ensures
            m == measures_spec(regions_view(self.regions@)),
    {
        let m = measure(self.regions.as_slice());
        assert(rows_view(self.regions@) =~= regions_view(self.regions@));
        m
    }
}

pub open spec fn code_regions_view(rs: Seq<CodeRegion>) -> Seq<RegionView> {
    Seq::new(rs.len(), |i: int| code_region_view(rs[i]))
}

/// The historical state of a snapshot, rebuilt from the current catalogue.
/// Pure: reads no file, clock or environment, and leaves its input alone.
pub fn reconstruct(base: &[CodeRegion], snapshot: &ProjectionSnapshot) -> (r: Result<Reconstruction, HarnessFailure>)
    ensures
        match applied(code_regions_view(base@), rules_view(snapshot.rules@)) {
            Ok((rs, l)) => r matches Ok(x) && regions_view(x.regions@) == rs && ledger_view(x.ledger@) == l,
            Err(f) => r matches Err(e) && failure_view(e) == f,
        },
{
    let mut entrada: Vec<ProjectionRegion> = Vec::new();
    let mut i: usize = 0;
    while i < base.len()
        invariant
            i <= base@.len(),
            regions_view(entrada@) == code_regions_view(base@.take(i as int)),
        decreases base.len() - i,
    {
        let ghost before = regions_view(entrada@);
        let p = ProjectionRegion::from_region(&base[i]);
        entrada.push(p);
        assert(regions_view(entrada@) =~= before.push(code_region_view(base@[i as int])));
        assert(code_regions_view(base@.take(i + 1)) =~= code_regions_view(base@.take(i as int)).push(
            code_region_view(base@[i as int]),
        ));
        i = i + 1;
    }
    assert(base@.take(i as int) =~= base@);
    let (regions, ledger) = apply_rules(entrada, snapshot.rules.as_slice())?;
    Ok(Reconstruction { regions, ledger })
}


proof fn lemma_retained_contains(rs: Seq<RegionView>, rule: RuleView, x: RegionView)
    ensures
        retained(rs, rule).contains(x) <==> (rs.contains(x) && !excludes(rule, x)),
    decreases rs.len(),
{
    if rs.len() > 0 {
        let d = rs.drop_last();
        lemma_retained_contains(d, rule, x);
        assert(rs =~= d.push(rs.last()));
        if retained(rs, rule).contains(x) {
            let k = choose|k: int| 0 <= k < retained(rs, rule).len() && retained(rs, rule)[k] == x;
            if !excludes(rule, rs.last()) && k == retained(d, rule).len() {
                assert(x == rs.last());
                assert(rs[rs.len() - 1] == x);
            } else {
                assert(retained(d, rule)[k] == x);
                let j = choose|j: int| 0 <= j < d.len() && d[j] == x;
                assert(rs[j] == x);
            }
        }
        if rs.contains(x) && !excludes(rule, x) {
            let j = choose|j: int| 0 <= j < rs.len() && rs[j] == x;
            if j == rs.len() - 1 {
                let t = retained(d, rule);
                assert(retained(rs, rule) == t.push(x));
                assert(t.push(x)[t.len() as int] == x);
            } else {
                assert(d[j] == x);
                let t = retained(d, rule);
                let k = choose|k: int| 0 <= k < t.len() && t[k] == x;
                if excludes(rule, rs.last()) {
                    assert(retained(rs, rule) == t);
                } else {
                    assert(t.push(rs.last())[k] == x);
                }
            }
        }
    }
}

proof fn lemma_count_none(rs: Seq<RegionView>, rule: RuleView)
    requires
        forall|i: int| 0 <= i < rs.len() ==> !excludes(rule, #[trigger] rs[i]),
    ensures
        count_excluded(rs, rule) == 0,
    decreases rs.len(),
{
    if rs.len() > 0 {
        let d = rs.drop_last();
        assert forall|i: int| 0 <= i < d.len() implies !excludes(rule, #[trigger] d[i]) by {
            assert(d[i] == rs[i]);
        }
        lemma_count_none(d, rule);
        assert(!excludes(rule, rs[rs.len() - 1]));
    }
}

proof fn lemma_retained_len(rs: Seq<RegionView>, rule: RuleView)
    ensures
        retained(rs, rule).len() + count_excluded(rs, rule) == rs.len(),
    decreases rs.len(),
{
    if rs.len() > 0 {
        lemma_retained_len(rs.drop_last(), rule);
    }
}

/// One exclusion applied alone: it fails when it matches nothing; when it
/// succeeds it removed exactly the regions it matches, as many as it
/// declared, and its consumption records that count.
proof fn lemma_single_exclusion(rs: Seq<RegionView>, rule: RuleView)
    requires
        super::rule_is_exclusion(rule),
    ensures
        (forall|i: int| 0 <= i < rs.len() ==> !excludes(rule, #[trigger] rs[i])) ==> applied(rs, seq![rule]) == Err::<
            (Seq<RegionView>, Seq<ConsumptionView>),
            FailureView,
        >(FailureView::ExclusionNoMatch { selector: rule_selector(rule) }),
        applied(rs, seq![rule]) matches Ok((out, l)) ==> {
            &&& forall|x: RegionView| #[trigger] out.contains(x) <==> (rs.contains(x) && !excludes(rule, x))
            &&& out.len() + super::rule_expected(rule) == rs.len()
            &&& l == seq![entry(rule, super::rule_expected(rule), super::rule_expected(rule))]
        },
{
    let one = seq![rule];
    let n = super::rule_expected(rule);
    assert(one.drop_last() =~= Seq::<RuleView>::empty());
    assert(sorted_rules(Seq::<RuleView>::empty()) == Seq::<RuleView>::empty());
    assert(super::parser::insert_rule(Seq::<RuleView>::empty(), rule) == seq![rule]);
    assert(sorted_rules(one) == one);
    assert(one[0] == rule);
    if forall|i: int| 0 <= i < rs.len() ==> !excludes(rule, #[trigger] rs[i]) {
        lemma_count_none(rs, rule);
    }
    if applied(rs, one) is Ok {
        let c = count_excluded(rs, rule);
        assert(applied(rs, one) == apply_from(rs, one, 0, Seq::empty()));
        assert(rule_step(rs, rule) is Ok);
        assert(c != 0);
        assert(c == n);
        assert(rule_step(rs, rule) == Ok::<(Seq<RegionView>, ConsumptionView), FailureView>(
            (retained(rs, rule), entry(rule, n, c as u64)),
        ));
        let l = Seq::<ConsumptionView>::empty().push(entry(rule, n, c as u64));
        assert(l[0].consumed == c);
        assert(l.drop_first() =~= Seq::<ConsumptionView>::empty());
        assert(unconsumed(l.drop_first()) is None);
        assert(unconsumed(l) is None);
        assert(apply_from(rs, one, 0, Seq::empty()) == apply_from(retained(rs, rule), one, 1, l));
        assert(applied(rs, one) == Ok::<(Seq<RegionView>, Seq<ConsumptionView>), FailureView>((retained(rs, rule), l)));
        assert forall|x: RegionView| #[trigger] retained(rs, rule).contains(x) <==> (rs.contains(x) && !excludes(
            rule,
            x,
        )) by {
            lemma_retained_contains(rs, rule, x);
        }
        lemma_retained_len(rs, rule);
        assert(l =~= seq![entry(rule, n, n)]);
    }
}

/// An exclusion by file prefix removes exactly the regions whose file path
/// starts with the prefix, whatever their key: when no region's file starts
/// with it, the rule consumes nothing and fails; when the reconstruction
/// succeeds, the regions left are exactly those whose file does not start
/// with it, `n` regions were removed and the consumption reads `n` of `n`.
pub proof fn law_exclude_file_prefix(rs: Seq<RegionView>, prefix: Seq<char>, n: u64)
    ensures
        (forall|i: int| 0 <= i < rs.len() ==> !has_prefix(#[trigger] rs[i].file, prefix)) ==> applied(
            rs,
            seq![RuleView::ExcludeFilePrefix { prefix, expected_matches: n }],
        ) == Err::<(Seq<RegionView>, Seq<ConsumptionView>), FailureView>(
            FailureView::ExclusionNoMatch { selector: prefix },
        ),
        applied(rs, seq![RuleView::ExcludeFilePrefix { prefix, expected_matches: n }]) matches Ok((out, l)) ==> {
            &&& forall|x: RegionView| #[trigger] out.contains(x) <==> (rs.contains(x) && !has_prefix(x.file, prefix))
            &&& out.len() + n == rs.len()
            &&& l == seq![ConsumptionView { op: "exclude-file-prefix"@, selector: prefix, expected: n, consumed: n }]
        },
{
    let rule = RuleView::ExcludeFilePrefix { prefix, expected_matches: n };
    lemma_single_exclusion(rs, rule);
    assert forall|x: RegionView| excludes(rule, x) == has_prefix(x.file, prefix) by {}
}

/// An exclusion by file removes exactly the regions of that file, whatever
/// their key, with the same failure and consumption as any exclusion.
pub proof fn law_exclude_file(rs: Seq<RegionView>, file: Seq<char>, n: u64)
    ensures
        (forall|i: int| 0 <= i < rs.len() ==> #[trigger] rs[i].file != file) ==> applied(
            rs,
            seq![RuleView::ExcludeFile { file, expected_matches: n }],
        ) == Err::<(Seq<RegionView>, Seq<ConsumptionView>), FailureView>(
            FailureView::ExclusionNoMatch { selector: file },
        ),
        applied(rs, seq![RuleView::ExcludeFile { file, expected_matches: n }]) matches Ok((out, l)) ==> {
            &&& forall|x: RegionView| #[trigger] out.contains(x) <==> (rs.contains(x) && x.file != file)
            &&& out.len() + n == rs.len()
            &&& l == seq![ConsumptionView { op: "exclude-file"@, selector: file, expected: n, consumed: n }]
        },
{
    let rule = RuleView::ExcludeFile { file, expected_matches: n };
    lemma_single_exclusion(rs, rule);
}

/// An exclusion by key removes exactly the regions with that key, whatever
/// their file.
pub proof fn law_exclude_key(rs: Seq<RegionView>, key: Seq<char>, n: u64)
    ensures
        (forall|i: int| 0 <= i < rs.len() ==> #[trigger] rs[i].key != key) ==> applied(
            rs,
            seq![RuleView::ExcludeKey { key, expected_matches: n }],
        ) == Err::<(Seq<RegionView>, Seq<ConsumptionView>), FailureView>(
            FailureView::ExclusionNoMatch { selector: key },
        ),
        applied(rs, seq![RuleView::ExcludeKey { key, expected_matches: n }]) matches Ok((out, l)) ==> {
            &&& forall|x: RegionView| #[trigger] out.contains(x) <==> (rs.contains(x) && x.key != key)
            &&& out.len() + n == rs.len()
            &&& l == seq![ConsumptionView { op: "exclude-key"@, selector: key, expected: n, consumed: n }]
        },
{
    let rule = RuleView::ExcludeKey { key, expected_matches: n };
    lemma_single_exclusion(rs, rule);
}

/// An exclusion by key prefix removes exactly the regions whose key starts
/// with the prefix, whatever their file.
pub proof fn law_exclude_key_prefix(rs: Seq<RegionView>, prefix: Seq<char>, n: u64)
    ensures
        (forall|i: int| 0 <= i < rs.len() ==> !has_prefix(#[trigger] rs[i].key, prefix)) ==> applied(
            rs,
            seq![RuleView::ExcludeKeyPrefix { prefix, expected_matches: n }],
        ) == Err::<(Seq<RegionView>, Seq<ConsumptionView>), FailureView>(
            FailureView::ExclusionNoMatch { selector: prefix },
        ),
        applied(rs, seq![RuleView::ExcludeKeyPrefix { prefix, expected_matches: n }]) matches Ok((out, l)) ==> {
            &&& forall|x: RegionView| #[trigger] out.contains(x) <==> (rs.contains(x) && !has_prefix(x.key, prefix))
            &&& out.len() + n == rs.len()
            &&& l == seq![ConsumptionView { op: "exclude-key-prefix"@, selector: prefix, expected: n, consumed: n }]
        },
{
    let rule = RuleView::ExcludeKeyPrefix { prefix, expected_matches: n };
    lemma_single_exclusion(rs, rule);
}

} // verus!
