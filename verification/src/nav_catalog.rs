//! The checks of a scanned cartography (duplicate keys, conflicting symbol
//! identities, missing link targets, test links outside the evidence layer),
//! the deterministic JSONL serialization of the catalogue and its reading
//! back.
use crate::nav::{CodeIndex, CodeRegion, NavVerifyError, RegionSymbol, ScanError, SymbolKind};
use crate::nav_scan::{
    copy_opt, copy_text, index_view, problem_view, problems_view, region_rec, region_recs, IndexView, ProblemView,
    RegionRec, SymView,
};
use crate::nav::{kind_str, role_str, SymbolDocLink};
use crate::nav_projection_snapshot::report::{json_quoted, push_json_string};
use crate::nav_scan::{doc_view, docs_view, sym_view, syms_view, DocView};
use crate::text::{
    chars_of, decimal, push_decimal, push_str_chars, rows, seq_lt, sort_texts, str_eq, string_from,
    string_rows, text_le, vec_eq, vec_lt, lemma_seq_le_total_ordering,
};
use vstd::prelude::*;

verus! {

// ---------------------------------------------------------------------------
// Duplicate keys.
// ---------------------------------------------------------------------------

pub open spec fn region_keys(rs: Seq<RegionRec>) -> Seq<Seq<char>> {
    Seq::new(rs.len(), |i: int| rs[i].key)
}

/// The files of the regions with key `k`, in catalogue order.
pub open spec fn files_with_key(rs: Seq<RegionRec>, k: Seq<char>) -> Seq<Seq<char>>
    decreases rs.len(),
{
    if rs.len() == 0 {
        Seq::empty()
    } else {
        files_with_key(rs.drop_last(), k) + if rs.last().key == k {
            seq![rs.last().file]
        } else {
            Seq::empty()
        }
    }
}

/// Over the keys sorted in `str` order, one duplicate-key finding per key
/// held by more than one region, with their files.
pub open spec fn duplicates_from(ks: Seq<Seq<char>>, rs: Seq<RegionRec>, i: int) -> Seq<ProblemView>
    decreases ks.len() - i,
{
    if i < 0 || i >= ks.len() {
        Seq::empty()
    } else {
        (if (i == 0 || ks[i] != ks[i - 1]) && files_with_key(rs, ks[i]).len() > 1 {
            seq![ProblemView::DuplicateKey { key: ks[i], files: files_with_key(rs, ks[i]) }]
        } else {
            Seq::empty()
        }) + duplicates_from(ks, rs, i + 1)
    }
}

pub open spec fn duplicate_keys(rs: Seq<RegionRec>) -> Seq<ProblemView> {
    duplicates_from(region_keys(rs).sort_by(text_le()), rs, 0)
}

// ---------------------------------------------------------------------------
// Symbol identities.
// ---------------------------------------------------------------------------

/// What the first binding of an identity declared, and the regions that
/// bound it so far.
pub struct IdEntry {
    pub identity: Seq<char>,
    pub name: Seq<char>,
    pub kind: SymbolKind,
    pub regions: Seq<Seq<char>>,
}

pub open spec fn find_from(es: Seq<IdEntry>, id: Seq<char>, i: int) -> Option<int>
    decreases es.len() - i,
{
    if i < 0 || i >= es.len() {
        None
    } else if es[i].identity == id {
        Some(i)
    } else {
        find_from(es, id, i + 1)
    }
}

/// One binding of region `key`: a new identity is recorded; a known one
/// gains the region, and a different name or kind than the first binding's
/// is a conflict listing every region bound so far.
pub open spec fn sym_step(es: Seq<IdEntry>, errs: Seq<ProblemView>, key: Seq<char>, s: SymView) -> (
    Seq<IdEntry>,
    Seq<ProblemView>,
) {
    match find_from(es, s.identity, 0) {
        Some(j) => {
            let e = es[j];
            let e2 = IdEntry { regions: e.regions.push(key), ..e };
            (
                es.update(j, e2),
                if e.name != s.name || e.kind != s.kind {
                    errs.push(ProblemView::ConflictingSymbolIdentity { identity: s.identity, regions: e2.regions })
                } else {
                    errs
                },
            )
        },
        None => (es.push(IdEntry { identity: s.identity, name: s.name, kind: s.kind, regions: seq![key] }), errs),
    }
}

pub open spec fn syms_fold(es: Seq<IdEntry>, errs: Seq<ProblemView>, key: Seq<char>, ss: Seq<SymView>) -> (
    Seq<IdEntry>,
    Seq<ProblemView>,
)
    decreases ss.len(),
{
    if ss.len() == 0 {
        (es, errs)
    } else {
        let (a, b) = sym_step(es, errs, key, ss[0]);
        syms_fold(a, b, key, ss.drop_first())
    }
}

pub open spec fn regions_fold(es: Seq<IdEntry>, errs: Seq<ProblemView>, rs: Seq<RegionRec>) -> (
    Seq<IdEntry>,
    Seq<ProblemView>,
)
    decreases rs.len(),
{
    if rs.len() == 0 {
        (es, errs)
    } else {
        let (a, b) = syms_fold(es, errs, rs[0].key, rs[0].symbols);
        regions_fold(a, b, rs.drop_first())
    }
}

pub open spec fn conflicts(rs: Seq<RegionRec>) -> Seq<ProblemView> {
    regions_fold(Seq::empty(), Seq::empty(), rs).1
}

// ---------------------------------------------------------------------------
// Link targets and the evidence layer.
// ---------------------------------------------------------------------------

/// Some region declares a symbol with this identity.
pub open spec fn declared(rs: Seq<RegionRec>, id: Seq<char>) -> bool {
    exists|i: int, j: int|
        0 <= i < rs.len() && 0 <= j < rs[i].symbols.len() && (#[trigger] rs[i].symbols[j]).identity == id
}

pub open spec fn missing(key: Seq<char>, field: Seq<char>, ids: Seq<Seq<char>>, rs: Seq<RegionRec>) -> Seq<ProblemView>
    decreases ids.len(),
{
    if ids.len() == 0 {
        Seq::empty()
    } else {
        missing(key, field, ids.drop_last(), rs) + if declared(rs, ids.last()) {
            Seq::empty()
        } else {
            seq![ProblemView::MissingSymbolTarget { region: key, field, identity: ids.last() }]
        }
    }
}

pub open spec fn evidence() -> Seq<char> {
    "evidence"@
}

pub open spec fn bad_tests(r: RegionRec) -> Seq<ProblemView> {
    if r.layer == Some(evidence()) {
        Seq::empty()
    } else {
        Seq::new(
            r.test_for.len(),
            |i: int| ProblemView::InvalidTestLink { region: r.key, identity: r.test_for[i], layer: r.layer },
        )
    }
}

pub open spec fn doc_ids(r: RegionRec) -> Seq<Seq<char>> {
    Seq::new(r.symbol_docs.len(), |i: int| r.symbol_docs[i].identity)
}

/// The target findings of one region: its related symbols, tested symbols
/// and documented symbols that no region declares, then its test links when
/// it is not in the evidence layer.
pub open spec fn region_targets(r: RegionRec, rs: Seq<RegionRec>) -> Seq<ProblemView> {
    missing(r.key, "related-symbol"@, r.related_symbols, rs) + missing(r.key, "test-for"@, r.test_for, rs)
        + missing(r.key, "symbol-doc"@, doc_ids(r), rs) + bad_tests(r)
}

pub open spec fn targets(done: Seq<RegionRec>, rs: Seq<RegionRec>) -> Seq<ProblemView>
    decreases done.len(),
{
    if done.len() == 0 {
        Seq::empty()
    } else {
        targets(done.drop_last(), rs) + region_targets(done.last(), rs)
    }
}

/// Every finding of the checks of a code index: the scan problems, then the
/// duplicate keys in key order, the identity conflicts in binding order and
/// the target findings in region order.
pub open spec fn index_problems(scan: Seq<ProblemView>, rs: Seq<RegionRec>) -> Seq<ProblemView> {
    scan + duplicate_keys(rs) + conflicts(rs) + targets(rs, rs)
}

// ---------------------------------------------------------------------------
// The checks.
// ---------------------------------------------------------------------------

fn push_err(errs: &mut Vec<NavVerifyError>, e: NavVerifyError)
    ensures
        problems_view(final(errs)@) == problems_view(old(errs)@).push(problem_view(e)),
{
    let ghost before = errs@;
    errs.push(e);
    assert(problems_view(errs@) =~= problems_view(before).push(problem_view(e)));
}

fn copy_texts(v: &Vec<String>) -> (r: Vec<String>)
    ensures
        string_rows(r@) == string_rows(v@),
{
    let mut out: Vec<String> = Vec::new();
    let mut i: usize = 0;
    while i < v.len()
        invariant
            i <= v@.len(),
            out@.len() == i,
            string_rows(out@) == string_rows(v@).take(i as int),
        decreases v.len() - i,
    {
        let ghost before = out@;
        out.push(copy_text(v[i].as_str()));
        assert forall|k: int| 0 <= k < i + 1 implies #[trigger] string_rows(out@)[k] == string_rows(v@).take(i + 1)[k] by {
            if k < i {
                assert(string_rows(before)[k] == before[k]@);
            }
        }
        assert(string_rows(out@) =~= string_rows(v@).take(i + 1));
        i = i + 1;
    }
    assert(string_rows(v@).take(v@.len() as int) =~= string_rows(v@));
    out
}

fn files_with_key_exec(regions: &Vec<CodeRegion>, k: &Vec<char>) -> (r: Vec<String>)
    ensures
        string_rows(r@) == files_with_key(region_recs(regions@), k@),
{
    let ghost recs = region_recs(regions@);
    let mut out: Vec<String> = Vec::new();
    let mut i: usize = 0;
    assert(recs.take(0) =~= Seq::<RegionRec>::empty());
    assert(string_rows(out@) =~= Seq::<Seq<char>>::empty());
    while i < regions.len()
        invariant
            i <= regions@.len(),
            recs == region_recs(regions@),
            string_rows(out@) == files_with_key(recs.take(i as int), k@),
        decreases regions.len() - i,
    {
        assert(recs.take(i + 1).drop_last() =~= recs.take(i as int));
        assert(recs.take(i + 1).last() == region_rec(regions@[i as int]));
        let rk = chars_of(regions[i].key.as_str());
        let ghost before = out@;
        if vec_eq(&rk, k) {
            out.push(copy_text(regions[i].file.as_str()));
            assert(string_rows(out@) =~= string_rows(before) + seq![regions@[i as int].file@]);
        } else {
            assert(string_rows(before) + Seq::<Seq<char>>::empty() =~= string_rows(before));
        }
        i = i + 1;
    }
    assert(recs.take(regions@.len() as int) =~= recs);
    out
}

fn push_duplicates(regions: &Vec<CodeRegion>, errs: &mut Vec<NavVerifyError>)
    ensures
        problems_view(final(errs)@) == problems_view(old(errs)@) + duplicate_keys(region_recs(regions@)),
{
    let ghost recs = region_recs(regions@);
    let mut keys: Vec<Vec<char>> = Vec::new();
    let mut i: usize = 0;
    while i < regions.len()
        invariant
            i <= regions@.len(),
            recs == region_recs(regions@),
            keys@.len() == i,
            rows(keys@) == region_keys(recs).take(i as int),
        decreases regions.len() - i,
    {
        let ghost before = keys@;
        keys.push(chars_of(regions[i].key.as_str()));
        assert forall|k: int| 0 <= k < i + 1 implies #[trigger] rows(keys@)[k] == region_keys(recs).take(i + 1)[k] by {
            if k < i {
                assert(rows(before)[k] == before[k]@);
            }
        }
        assert(rows(keys@) =~= region_keys(recs).take(i + 1));
        i = i + 1;
    }
    assert(region_keys(recs).take(regions@.len() as int) =~= region_keys(recs));
    let ks = sort_texts(&keys);
    let ghost kv = rows(ks@);
    let ghost base = problems_view(errs@);
    let mut j: usize = 0;
    assert(base + duplicates_from(kv, recs, 0) =~= base + duplicate_keys(recs));
    while j < ks.len()
        invariant
            j <= ks@.len(),
            kv == rows(ks@),
            recs == region_recs(regions@),
            problems_view(errs@) + duplicates_from(kv, recs, j as int) == base + duplicate_keys(recs),
        decreases ks.len() - j,
    {
        let ghost p = problems_view(errs@);
        let first = j == 0 || !vec_eq(&ks[j], &ks[j - 1]);
        proof {
            if j > 0 {
                assert(kv[j - 1] == ks@[j - 1]@);
            }
            assert(kv[j as int] == ks@[j as int]@);
        }
        if first {
            let files = files_with_key_exec(regions, &ks[j]);
            if files.len() > 1 {
                let e = NavVerifyError::DuplicateKey { key: string_from(&ks[j]), files };
                push_err(errs, e);
                assert(p + duplicates_from(kv, recs, j as int) =~= problems_view(errs@) + duplicates_from(
                    kv,
                    recs,
                    j + 1,
                ));
            } else {
                assert(p + duplicates_from(kv, recs, j as int) =~= p + duplicates_from(kv, recs, j + 1));
            }
        } else {
            assert(p + duplicates_from(kv, recs, j as int) =~= p + duplicates_from(kv, recs, j + 1));
        }
        j = j + 1;
    }
}

struct Entry {
    identity: String,
    name: String,
    kind: SymbolKind,
    regions: Vec<String>,
}

spec fn entry_view(e: Entry) -> IdEntry {
    IdEntry { identity: e.identity@, name: e.name@, kind: e.kind, regions: string_rows(e.regions@) }
}

spec fn entries_view(v: Seq<Entry>) -> Seq<IdEntry> {
    Seq::new(v.len(), |i: int| entry_view(v[i]))
}

fn find_entry(es: &Vec<Entry>, id: &str) -> (r: Option<usize>)
    ensures
        match find_from(entries_view(es@), id@, 0) {
            Some(j) => r == Some(j as usize),
            None => r is None,
        },
        r matches Some(j) ==> j < es@.len() && find_from(entries_view(es@), id@, 0) == Some(j as int),
{
    let ghost ev = entries_view(es@);
    let mut i: usize = 0;
    while i < es.len()
        invariant
            i <= es@.len(),
            ev == entries_view(es@),
            find_from(ev, id@, 0) == find_from(ev, id@, i as int),
        decreases es.len() - i,
    {
        if str_eq(es[i].identity.as_str(), id) {
            return Some(i);
        }
        i = i + 1;
    }
    None
}

#[verifier::spinoff_prover]
fn bind_symbol(es: &mut Vec<Entry>, errs: &mut Vec<NavVerifyError>, key: &str, s: &RegionSymbol)
    ensures
        (entries_view(final(es)@), problems_view(final(errs)@)) == sym_step(
            entries_view(old(es)@),
            problems_view(old(errs)@),
            key@,
            crate::nav_scan::sym_view(*s),
        ),
{
    let ghost ev = entries_view(es@);
    match find_entry(es, s.identity.as_str()) {
        Some(j) => {
            assert(ev[j as int] == entry_view(es@[j as int]));
            let mut regs = copy_texts(&es[j].regions);
            let ghost r0 = string_rows(regs@);
            regs.push(copy_text(key));
            assert(string_rows(regs@) =~= r0.push(key@));
            let conflict = !str_eq(es[j].name.as_str(), s.name.as_str()) || es[j].kind != s.kind;
            if conflict {
                let e = NavVerifyError::ConflictingSymbolIdentity {
                    identity: copy_text(s.identity.as_str()),
                    regions: copy_texts(&regs),
                };
                push_err(errs, e);
            }
            let ne = Entry {
                identity: copy_text(es[j].identity.as_str()),
                name: copy_text(es[j].name.as_str()),
                kind: es[j].kind,
                regions: regs,
            };
            let ghost before = es@;
            es.set(j, ne);
            let ghost e2 = IdEntry { regions: ev[j as int].regions.push(key@), ..ev[j as int] };
            assert(entry_view(ne) == e2);
            assert(entries_view(es@) =~= ev.update(j as int, e2));
            assert(conflict == (ev[j as int].name != s.name@ || ev[j as int].kind != s.kind));
            assert(entries_view(es@) == sym_step(ev, problems_view(old(errs)@), key@, crate::nav_scan::sym_view(*s)).0);
            assert(problems_view(errs@) == sym_step(ev, problems_view(old(errs)@), key@, crate::nav_scan::sym_view(*s)).1);
        },
        None => {
            let mut regs: Vec<String> = Vec::new();
            regs.push(copy_text(key));
            assert(string_rows(regs@) =~= seq![key@]);
            let ne = Entry {
                identity: copy_text(s.identity.as_str()),
                name: copy_text(s.name.as_str()),
                kind: s.kind,
                regions: regs,
            };
            es.push(ne);
            assert(entries_view(es@) =~= ev.push(entry_view(ne)));
            assert(entries_view(es@) == sym_step(ev, problems_view(old(errs)@), key@, crate::nav_scan::sym_view(*s)).0);
        },
    }
}

fn collect_conflicts(regions: &Vec<CodeRegion>) -> (r: Vec<NavVerifyError>)
    ensures
        problems_view(r@) == conflicts(region_recs(regions@)),
{
    let ghost recs = region_recs(regions@);
    let mut es: Vec<Entry> = Vec::new();
    let mut errs: Vec<NavVerifyError> = Vec::new();
    let mut i: usize = 0;
    assert(recs.skip(0) =~= recs);
    assert(entries_view(es@) =~= Seq::<IdEntry>::empty());
    assert(problems_view(errs@) =~= Seq::<ProblemView>::empty());
    while i < regions.len()
        invariant
            i <= regions@.len(),
            recs == region_recs(regions@),
            regions_fold(Seq::empty(), Seq::empty(), recs) == regions_fold(
                entries_view(es@),
                problems_view(errs@),
                recs.skip(i as int),
            ),
        decreases regions.len() - i,
    {
        let r = &regions[i];
        let ghost ss = crate::nav_scan::syms_view(r.symbols@);
        assert(recs.skip(i as int)[0] == region_rec(*r));
        assert(recs.skip(i as int).drop_first() =~= recs.skip(i + 1));
        let mut j: usize = 0;
        let ghost es0 = entries_view(es@);
        let ghost er0 = problems_view(errs@);
        assert(ss.skip(0) =~= ss);
        while j < r.symbols.len()
            invariant
                j <= r.symbols@.len(),
                ss == crate::nav_scan::syms_view(r.symbols@),
                syms_fold(entries_view(es@), problems_view(errs@), r.key@, ss.skip(j as int)) == syms_fold(
                    es0,
                    er0,
                    r.key@,
                    ss,
                ),
            decreases r.symbols.len() - j,
        {
            assert(ss.skip(j as int)[0] == crate::nav_scan::sym_view(r.symbols@[j as int]));
            assert(ss.skip(j as int).drop_first() =~= ss.skip(j + 1));
            bind_symbol(&mut es, &mut errs, r.key.as_str(), &r.symbols[j]);
            j = j + 1;
        }
        assert(ss.skip(j as int) =~= Seq::<SymView>::empty());
        i = i + 1;
    }
    assert(recs.skip(i as int) =~= Seq::<RegionRec>::empty());
    errs
}

fn declared_exec(regions: &Vec<CodeRegion>, id: &str) -> (b: bool)
    ensures
        b == declared(region_recs(regions@), id@),
{
    let ghost recs = region_recs(regions@);
    let mut i: usize = 0;
    while i < regions.len()
        invariant
            i <= regions@.len(),
            recs == region_recs(regions@),
            forall|a: int, c: int|
                0 <= a < i && 0 <= c < recs[a].symbols.len() ==> (#[trigger] recs[a].symbols[c]).identity != id@,
        decreases regions.len() - i,
    {
        let syms = &regions[i].symbols;
        assert(recs[i as int] == region_rec(regions@[i as int]));
        let mut j: usize = 0;
        while j < syms.len()
            invariant
                j <= syms@.len(),
                i < regions@.len(),
                syms@ == regions@[i as int].symbols@,
                recs == region_recs(regions@),
                recs[i as int] == region_rec(regions@[i as int]),
                forall|c: int| 0 <= c < j ==> (#[trigger] recs[i as int].symbols[c]).identity != id@,
            decreases syms.len() - j,
        {
            assert(recs[i as int].symbols[j as int] == crate::nav_scan::sym_view(syms@[j as int]));
            if str_eq(syms[j].identity.as_str(), id) {
                assert(recs[i as int].symbols[j as int].identity == id@);
                return true;
            }
            j = j + 1;
        }
        i = i + 1;
    }
    false
}

fn push_missing(
    key: &str,
    field: &str,
    ids: &Vec<String>,
    regions: &Vec<CodeRegion>,
    errs: &mut Vec<NavVerifyError>,
)
    ensures
        problems_view(final(errs)@) == problems_view(old(errs)@) + missing(
            key@,
            field@,
            string_rows(ids@),
            region_recs(regions@),
        ),
{
    let ghost iv = string_rows(ids@);
    let ghost recs = region_recs(regions@);
    let ghost base = problems_view(errs@);
    let mut i: usize = 0;
    assert(iv.take(0) =~= Seq::<Seq<char>>::empty());
    assert(base + Seq::<ProblemView>::empty() =~= base);
    while i < ids.len()
        invariant
            i <= ids@.len(),
            iv == string_rows(ids@),
            recs == region_recs(regions@),
            problems_view(errs@) == base + missing(key@, field@, iv.take(i as int), recs),
        decreases ids.len() - i,
    {
        assert(iv.take(i + 1).drop_last() =~= iv.take(i as int));
        assert(iv.take(i + 1).last() == ids@[i as int]@);
        let ghost p = problems_view(errs@);
        if declared_exec(regions, ids[i].as_str()) {
            assert(p + Seq::<ProblemView>::empty() =~= p);
        } else {
            let e = NavVerifyError::MissingSymbolTarget {
                region: copy_text(key),
                field: copy_text(field),
                identity: copy_text(ids[i].as_str()),
            };
            push_err(errs, e);
        }
        assert(problems_view(errs@) =~= base + missing(key@, field@, iv.take(i + 1), recs));
        i = i + 1;
    }
    assert(iv.take(ids@.len() as int) =~= iv);
}

#[verifier::spinoff_prover]
fn push_region_targets(r: &CodeRegion, regions: &Vec<CodeRegion>, errs: &mut Vec<NavVerifyError>)
    ensures
        problems_view(final(errs)@) == problems_view(old(errs)@) + region_targets(
            region_rec(*r),
            region_recs(regions@),
        ),
{
    let ghost rr = region_rec(*r);
    let ghost recs = region_recs(regions@);
    let ghost base = problems_view(errs@);
    push_missing(r.key.as_str(), "related-symbol", &r.related_symbols, regions, errs);
    push_missing(r.key.as_str(), "test-for", &r.test_for, regions, errs);
    let mut docs: Vec<String> = Vec::new();
    let mut i: usize = 0;
    while i < r.symbol_docs.len()
        invariant
            i <= r.symbol_docs@.len(),
            rr == region_rec(*r),
            docs@.len() == i,
            string_rows(docs@) == doc_ids(rr).take(i as int),
        decreases r.symbol_docs.len() - i,
    {
        let ghost before = docs@;
        docs.push(copy_text(r.symbol_docs[i].identity.as_str()));
        assert forall|k: int| 0 <= k < i + 1 implies #[trigger] string_rows(docs@)[k] == doc_ids(rr).take(i + 1)[k] by {
            if k < i {
                assert(string_rows(before)[k] == before[k]@);
            }
        }
        assert(string_rows(docs@) =~= doc_ids(rr).take(i + 1));
        i = i + 1;
    }
    assert(doc_ids(rr).take(r.symbol_docs@.len() as int) =~= doc_ids(rr));
    push_missing(r.key.as_str(), "symbol-doc", &docs, regions, errs);
    let evidence_layer = match &r.layer {
        Some(l) => str_eq(l.as_str(), "evidence"),
        None => false,
    };
    let ghost mid = problems_view(errs@);
    if !evidence_layer {
        let mut j: usize = 0;
        while j < r.test_for.len()
            invariant
                j <= r.test_for@.len(),
                rr == region_rec(*r),
                rr.layer != Some(evidence()),
                problems_view(errs@) == mid + bad_tests(rr).take(j as int),
            decreases r.test_for.len() - j,
        {
            let e = NavVerifyError::InvalidTestLink {
                region: copy_text(r.key.as_str()),
                identity: copy_text(r.test_for[j].as_str()),
                layer: copy_opt(&r.layer),
            };
            push_err(errs, e);
            assert(problems_view(errs@) =~= mid + bad_tests(rr).take(j + 1));
            j = j + 1;
        }
        assert(bad_tests(rr).take(r.test_for@.len() as int) =~= bad_tests(rr));
    } else {
        assert(mid + bad_tests(rr) =~= mid);
    }
    assert(problems_view(errs@) =~= base + region_targets(rr, recs));
}

fn copy_problem(e: &NavVerifyError) -> (r: NavVerifyError)
    ensures
        problem_view(r) == problem_view(*e),
{
    match e {
        NavVerifyError::DuplicateKey { key, files } => NavVerifyError::DuplicateKey {
            key: copy_text(key.as_str()),
            files: copy_texts(files),
        },
        NavVerifyError::StartWithoutEnd { key, file, line } => NavVerifyError::StartWithoutEnd {
            key: copy_text(key.as_str()),
            file: copy_text(file.as_str()),
            line: *line,
        },
        NavVerifyError::EndWithoutStart { key, file, line } => NavVerifyError::EndWithoutStart {
            key: copy_text(key.as_str()),
            file: copy_text(file.as_str()),
            line: *line,
        },
        NavVerifyError::KeyMismatch { start, end, file } => NavVerifyError::KeyMismatch {
            start: copy_text(start.as_str()),
            end: copy_text(end.as_str()),
            file: copy_text(file.as_str()),
        },
        NavVerifyError::EmptyRange { key, file } => NavVerifyError::EmptyRange {
            key: copy_text(key.as_str()),
            file: copy_text(file.as_str()),
        },
        NavVerifyError::InvalidKey { key, file, line } => NavVerifyError::InvalidKey {
            key: copy_text(key.as_str()),
            file: copy_text(file.as_str()),
            line: *line,
        },
        NavVerifyError::Overlap { outer, inner, file } => NavVerifyError::Overlap {
            outer: copy_text(outer.as_str()),
            inner: copy_text(inner.as_str()),
            file: copy_text(file.as_str()),
        },
        NavVerifyError::MalformedMeta { key, file, field } => NavVerifyError::MalformedMeta {
            key: copy_text(key.as_str()),
            file: copy_text(file.as_str()),
            field: copy_text(field.as_str()),
        },
        NavVerifyError::ConflictingSymbolIdentity { identity, regions } =>
            NavVerifyError::ConflictingSymbolIdentity {
                identity: copy_text(identity.as_str()),
                regions: copy_texts(regions),
            },
        NavVerifyError::MissingSymbolTarget { region, field, identity } =>
            NavVerifyError::MissingSymbolTarget {
                region: copy_text(region.as_str()),
                field: copy_text(field.as_str()),
                identity: copy_text(identity.as_str()),
            },
        NavVerifyError::InvalidTestLink { region, identity, layer } => NavVerifyError::InvalidTestLink {
            region: copy_text(region.as_str()),
            identity: copy_text(identity.as_str()),
            layer: copy_opt(layer),
        },
        NavVerifyError::IndexOutOfDate { path } => NavVerifyError::IndexOutOfDate { path: copy_text(path.as_str()) },
    }
}

impl CodeIndex {
    /// The checks of the cartography: the scan problems, then each key held
    /// by more than one region (in key order, with its files), each symbol
    /// identity bound with another name or kind than its first binding (with
    /// the regions bound so far), each related, tested or documented symbol
    /// that no region declares, and each test link outside the evidence
    /// layer.
    #[verifier::spinoff_prover]
    pub fn verify(&self) -> (v: Vec<NavVerifyError>)
        ensures
            problems_view(v@) == index_problems(problems_view(self.scan_problems@), region_recs(self.regions@)),
    {
        let ghost recs = region_recs(self.regions@);
        let ghost sp = problems_view(self.scan_problems@);
        let mut errs: Vec<NavVerifyError> = Vec::new();
        let mut i: usize = 0;
        assert(problems_view(errs@) =~= sp.take(0));
        while i < self.scan_problems.len()
            invariant
                i <= self.scan_problems@.len(),
                sp == problems_view(self.scan_problems@),
                problems_view(errs@) == sp.take(i as int),
            decreases self.scan_problems.len() - i,
        {
            push_err(&mut errs, copy_problem(&self.scan_problems[i]));
            assert(problems_view(errs@) =~= sp.take(i + 1));
            i = i + 1;
        }
        assert(sp.take(i as int) =~= sp);
        push_duplicates(&self.regions, &mut errs);
        let mut cs = collect_conflicts(&self.regions);
        let ghost p1 = problems_view(errs@);
        let ghost before_cs = cs@;
        errs.append(&mut cs);
        assert(problems_view(errs@) =~= p1 + problems_view(before_cs));
        let ghost p2 = problems_view(errs@);
        let mut k: usize = 0;
        assert(p2 + targets(recs.take(0), recs) =~= p2);
        while k < self.regions.len()
            invariant
                k <= self.regions@.len(),
                recs == region_recs(self.regions@),
                problems_view(errs@) == p2 + targets(recs.take(k as int), recs),
            decreases self.regions.len() - k,
        {
            assert(recs.take(k + 1).drop_last() =~= recs.take(k as int));
            assert(recs.take(k + 1).last() == region_rec(self.regions@[k as int]));
            push_region_targets(&self.regions[k], &self.regions, &mut errs);
            assert(problems_view(errs@) =~= p2 + targets(recs.take(k + 1), recs));
            k = k + 1;
        }
        assert(recs.take(k as int) =~= recs);
        errs
    }
}

// ---------------------------------------------------------------------------
// The JSONL catalogue.
// ---------------------------------------------------------------------------

pub open spec fn sym_text(s: SymView) -> Seq<char> {
    s.identity + "|"@ + s.name + "|"@ + kind_str(s.kind) + "|"@ + role_str(s.role)
}

pub open spec fn doc_text(d: DocView) -> Seq<char> {
    d.identity + "|"@ + d.document
}

/// Texts as JSON strings separated by commas.
pub open spec fn quoted_list(vs: Seq<Seq<char>>) -> Seq<char>
    decreases vs.len(),
{
    if vs.len() == 0 {
        Seq::empty()
    } else if vs.len() == 1 {
        json_quoted(vs[0])
    } else {
        quoted_list(vs.drop_last()) + ","@ + json_quoted(vs.last())
    }
}

pub open spec fn list_field(name: Seq<char>, vs: Seq<Seq<char>>) -> Seq<char> {
    if vs.len() == 0 {
        Seq::empty()
    } else {
        ",\""@ + name + "\":["@ + quoted_list(vs) + "]"@
    }
}

pub open spec fn opt_field(name: Seq<char>, o: Option<Seq<char>>) -> Seq<char> {
    match o {
        Some(v) => ",\""@ + name + "\":"@ + json_quoted(v),
        None => Seq::empty(),
    }
}

pub open spec fn int_field(name: Seq<char>, n: int) -> Seq<char> {
    ",\""@ + name + "\":"@ + decimal(n as nat)
}

pub open spec fn text_field(name: Seq<char>, v: Seq<char>) -> Seq<char> {
    ",\""@ + name + "\":"@ + json_quoted(v)
}

/// One catalogue line: the fields in their fixed order, the optional ones
/// only when present (a summary only when not empty, a list only when not
/// empty).
#[verifier::opaque]
pub open spec fn region_json(r: RegionRec) -> Seq<char> {
    "{\"schema\":1"@ + text_field("key"@, r.key) + text_field("kind"@, r.kind) + opt_field("domain"@, r.domain)
        + opt_field("layer"@, r.layer) + (match r.phase {
        Some(p) => int_field("phase"@, p as int),
        None => Seq::empty(),
    }) + text_field("file"@, r.file) + int_field("start_marker"@, r.start_marker) + int_field(
        "content_start"@,
        r.content_start,
    ) + int_field("content_end"@, r.content_end) + int_field("end_marker"@, r.end_marker) + (if r.summary.len()
        > 0 {
        text_field("summary"@, r.summary)
    } else {
        Seq::empty()
    }) + text_field("hash"@, r.hash) + text_field("status"@, r.status) + list_field(
        "symbols"@,
        r.symbols.map_values(|s: SymView| sym_text(s)),
    ) + list_field("related_symbols"@, r.related_symbols) + list_field("test_for"@, r.test_for) + list_field(
        "symbol_docs"@,
        r.symbol_docs.map_values(|d: DocView| doc_text(d)),
    ) + "}"@
}

/// Catalogue order: by key, then by file.
pub open spec fn region_lt(a: RegionRec, b: RegionRec) -> bool {
    seq_lt(a.key, b.key) || (a.key == b.key && seq_lt(a.file, b.file))
}

/// Stable insertion: after every record that is not greater.
pub open spec fn insert_sorted(s: Seq<RegionRec>, x: RegionRec) -> Seq<RegionRec>
    decreases s.len(),
{
    if s.len() == 0 || !region_lt(x, s.last()) {
        s.push(x)
    } else {
        insert_sorted(s.drop_last(), x).push(s.last())
    }
}

/// The records in catalogue order, equal ones in their original order.
pub open spec fn catalogue_order(rs: Seq<RegionRec>) -> Seq<RegionRec>
    decreases rs.len(),
{
    if rs.len() == 0 {
        Seq::empty()
    } else {
        insert_sorted(catalogue_order(rs.drop_last()), rs.last())
    }
}

pub open spec fn lines_of(rs: Seq<RegionRec>) -> Seq<char>
    decreases rs.len(),
{
    if rs.len() == 0 {
        Seq::empty()
    } else {
        lines_of(rs.drop_last()) + region_json(rs.last()) + "\n"@
    }
}

/// The deterministic catalogue: one line per region in catalogue order.
pub open spec fn jsonl_of(rs: Seq<RegionRec>) -> Seq<char> {
    lines_of(catalogue_order(rs))
}

pub(crate) proof fn lemma_insert_at(s: Seq<RegionRec>, x: RegionRec, k: int)
    requires
        0 <= k <= s.len(),
        forall|j: int| k <= j < s.len() ==> region_lt(x, #[trigger] s[j]),
        k == 0 || !region_lt(x, s[k - 1]),
    ensures
        insert_sorted(s, x) == s.take(k).push(x) + s.skip(k),
    decreases s.len(),
{
    if s.len() == 0 {
        assert(s.take(k).push(x) + s.skip(k) =~= s.push(x));
    } else if k == s.len() {
        assert(s.take(k).push(x) + s.skip(k) =~= s.push(x));
    } else {
        assert(region_lt(x, s[s.len() - 1]));
        lemma_insert_at(s.drop_last(), x, k);
        assert(s.drop_last().take(k).push(x) + s.drop_last().skip(k) + seq![s.last()] =~= s.take(k).push(x)
            + s.skip(k));
        assert(insert_sorted(s.drop_last(), x).push(s.last()) =~= insert_sorted(s.drop_last(), x) + seq![s.last()]);
    }
}

spec fn picked(regions: Seq<CodeRegion>, idx: Seq<usize>) -> Seq<RegionRec> {
    Seq::new(idx.len(), |i: int| region_rec(regions[idx[i] as int]))
}

pub(crate) fn rec_lt(a: &CodeRegion, b: &CodeRegion) -> (r: bool)
    ensures
        r == region_lt(region_rec(*a), region_rec(*b)),
{
    let ak = chars_of(a.key.as_str());
    let bk = chars_of(b.key.as_str());
    if vec_lt(&ak, &bk) {
        return true;
    }
    if !vec_eq(&ak, &bk) {
        return false;
    }
    let af = chars_of(a.file.as_str());
    let bf = chars_of(b.file.as_str());
    vec_lt(&af, &bf)
}

fn catalogue_indices(regions: &Vec<CodeRegion>) -> (idx: Vec<usize>)
    ensures
        forall|i: int| 0 <= i < idx@.len() ==> (#[trigger] idx@[i]) < regions@.len(),
        picked(regions@, idx@) == catalogue_order(region_recs(regions@)),
{
    let ghost recs = region_recs(regions@);
    let mut idx: Vec<usize> = Vec::new();
    let mut i: usize = 0;
    assert(picked(regions@, idx@) =~= catalogue_order(recs.take(0)));
    while i < regions.len()
        invariant
            i <= regions@.len(),
            recs == region_recs(regions@),
            forall|j: int| 0 <= j < idx@.len() ==> (#[trigger] idx@[j]) < regions@.len(),
            picked(regions@, idx@) == catalogue_order(recs.take(i as int)),
        decreases regions.len() - i,
    {
        let ghost s = picked(regions@, idx@);
        let ghost x = region_rec(regions@[i as int]);
        assert(recs.take(i + 1).drop_last() =~= recs.take(i as int));
        assert(recs.take(i + 1).last() == x);
        let mut k = idx.len();
        while k > 0 && rec_lt(&regions[i], &regions[idx[k - 1]])
            invariant
                k <= idx@.len(),
                i < regions@.len(),
                s == picked(regions@, idx@),
                x == region_rec(regions@[i as int]),
                forall|j: int| 0 <= j < idx@.len() ==> (#[trigger] idx@[j]) < regions@.len(),
                forall|j: int| k <= j < s.len() ==> region_lt(x, #[trigger] s[j]),
            decreases k,
        {
            k = k - 1;
        }
        proof {
            lemma_insert_at(s, x, k as int);
        }
        let ghost before = idx@;
        idx.insert(k, i);
        assert(picked(regions@, idx@) =~= s.take(k as int).push(x) + s.skip(k as int));
        i = i + 1;
    }
    assert(recs.take(regions@.len() as int) =~= recs);
    idx
}

fn push_text_field(out: &mut Vec<char>, name: &str, v: &str)
    ensures
        final(out)@ == old(out)@ + text_field(name@, v@),
{
    push_str_chars(out, ",\"");
    push_str_chars(out, name);
    push_str_chars(out, "\":");
    push_json_string(out, v);
}

fn push_int_field(out: &mut Vec<char>, name: &str, n: u64)
    ensures
        final(out)@ == old(out)@ + int_field(name@, n as int),
{
    push_str_chars(out, ",\"");
    push_str_chars(out, name);
    push_str_chars(out, "\":");
    push_decimal(out, n);
}

fn push_opt_field(out: &mut Vec<char>, name: &str, o: &Option<String>)
    ensures
        final(out)@ == old(out)@ + opt_field(name@, crate::nav_scan::opt_text(*o)),
{
    match o {
        Some(v) => push_text_field(out, name, v.as_str()),
        None => {
            assert(old(out)@ + Seq::<char>::empty() =~= old(out)@);
        },
    }
}

fn push_list_field(out: &mut Vec<char>, name: &str, vs: &Vec<Vec<char>>)
    ensures
        final(out)@ == old(out)@ + list_field(name@, rows(vs@)),
{
    let ghost vv = rows(vs@);
    if vs.len() == 0 {
        assert(old(out)@ + Seq::<char>::empty() =~= old(out)@);
        return;
    }
    let ghost start = old(out)@;
    push_str_chars(out, ",\"");
    push_str_chars(out, name);
    push_str_chars(out, "\":[");
    let ghost head = out@;
    let mut i: usize = 0;
    assert(head + quoted_list(vv.take(0)) =~= head);
    while i < vs.len()
        invariant
            1 <= vs@.len(),
            i <= vs@.len(),
            vv == rows(vs@),
            out@ == head + quoted_list(vv.take(i as int)),
        decreases vs.len() - i,
    {
        assert(vv.take(i + 1).drop_last() =~= vv.take(i as int));
        assert(vv.take(i + 1).last() == vs@[i as int]@);
        if i > 0 {
            push_str_chars(out, ",");
        }
        let t = string_from(&vs[i]);
        push_json_string(out, t.as_str());
        proof {
            if i == 0 {
                assert(vv.take(1) =~= seq![vv[0]]);
                assert(out@ =~= head + quoted_list(vv.take(i + 1)));
            } else {
                assert(out@ =~= head + quoted_list(vv.take(i + 1)));
            }
        }
        i = i + 1;
    }
    assert(vv.take(vs@.len() as int) =~= vv);
    push_str_chars(out, "]");
    assert(out@ =~= start + list_field(name@, vv));
}

fn sym_texts(v: &Vec<RegionSymbol>) -> (r: Vec<Vec<char>>)
    ensures
        rows(r@) == syms_view(v@).map_values(|s: SymView| sym_text(s)),
{
    let ghost target = syms_view(v@).map_values(|s: SymView| sym_text(s));
    let mut out: Vec<Vec<char>> = Vec::new();
    let mut i: usize = 0;
    while i < v.len()
        invariant
            i <= v@.len(),
            out@.len() == i,
            target == syms_view(v@).map_values(|s: SymView| sym_text(s)),
            forall|k: int| 0 <= k < i ==> #[trigger] out@[k]@ == target[k],
        decreases v.len() - i,
    {
        let mut t: Vec<char> = Vec::new();
        push_str_chars(&mut t, v[i].identity.as_str());
        push_str_chars(&mut t, "|");
        push_str_chars(&mut t, v[i].name.as_str());
        push_str_chars(&mut t, "|");
        push_str_chars(&mut t, v[i].kind.as_str());
        push_str_chars(&mut t, "|");
        push_str_chars(&mut t, v[i].role.as_str());
        assert(t@ =~= target[i as int]);
        out.push(t);
        i = i + 1;
    }
    assert(rows(out@) =~= target);
    out
}

fn doc_texts(v: &Vec<SymbolDocLink>) -> (r: Vec<Vec<char>>)
    ensures
        rows(r@) == docs_view(v@).map_values(|d: DocView| doc_text(d)),
{
    let ghost target = docs_view(v@).map_values(|d: DocView| doc_text(d));
    let mut out: Vec<Vec<char>> = Vec::new();
    let mut i: usize = 0;
    while i < v.len()
        invariant
            i <= v@.len(),
            out@.len() == i,
            target == docs_view(v@).map_values(|d: DocView| doc_text(d)),
            forall|k: int| 0 <= k < i ==> #[trigger] out@[k]@ == target[k],
        decreases v.len() - i,
    {
        let mut t: Vec<char> = Vec::new();
        push_str_chars(&mut t, v[i].identity.as_str());
        push_str_chars(&mut t, "|");
        push_str_chars(&mut t, v[i].document.as_str());
        assert(t@ =~= target[i as int]);
        out.push(t);
        i = i + 1;
    }
    assert(rows(out@) =~= target);
    out
}

fn text_rows(v: &Vec<String>) -> (r: Vec<Vec<char>>)
    ensures
        rows(r@) == string_rows(v@),
{
    let mut out: Vec<Vec<char>> = Vec::new();
    let mut i: usize = 0;
    while i < v.len()
        invariant
            i <= v@.len(),
            out@.len() == i,
            forall|k: int| 0 <= k < i ==> #[trigger] out@[k]@ == v@[k]@,
        decreases v.len() - i,
    {
        out.push(chars_of(v[i].as_str()));
        i = i + 1;
    }
    assert(rows(out@) =~= string_rows(v@));
    out
}

/// One catalogue line for a region.
#[verifier::spinoff_prover]
pub fn render_region_json(r: &CodeRegion) -> (s: Vec<char>)
    ensures
        s@ == region_json(region_rec(*r)),
{
    proof {
        reveal(region_json);
    }
    let ghost rr = region_rec(*r);
    let mut out: Vec<char> = Vec::new();
    push_str_chars(&mut out, "{\"schema\":1");
    push_text_field(&mut out, "key", r.key.as_str());
    push_text_field(&mut out, "kind", r.kind.as_str());
    push_opt_field(&mut out, "domain", &r.domain);
    push_opt_field(&mut out, "layer", &r.layer);
    match r.phase {
        Some(p) => push_int_field(&mut out, "phase", p),
        None => {},
    }
    let ghost a = out@;
    assert(a =~= "{\"schema\":1"@ + text_field("key"@, rr.key) + text_field("kind"@, rr.kind) + opt_field(
        "domain"@,
        rr.domain,
    ) + opt_field("layer"@, rr.layer) + (match rr.phase {
        Some(p) => int_field("phase"@, p as int),
        None => Seq::empty(),
    }));
    push_text_field(&mut out, "file", r.file.as_str());
    push_int_field(&mut out, "start_marker", r.start_marker as u64);
    push_int_field(&mut out, "content_start", r.content_start as u64);
    push_int_field(&mut out, "content_end", r.content_end as u64);
    push_int_field(&mut out, "end_marker", r.end_marker as u64);
    let ghost b = out@;
    let sc = chars_of(r.summary.as_str());
    if sc.len() > 0 {
        push_text_field(&mut out, "summary", r.summary.as_str());
    }
    proof {
        if rr.summary.len() == 0 {
            assert(b + Seq::<char>::empty() =~= b);
        }
    }
    push_text_field(&mut out, "hash", r.hash.as_str());
    push_text_field(&mut out, "status", r.status.as_str());
    let st = sym_texts(&r.symbols);
    push_list_field(&mut out, "symbols", &st);
    let rl = text_rows(&r.related_symbols);
    push_list_field(&mut out, "related_symbols", &rl);
    let tf = text_rows(&r.test_for);
    push_list_field(&mut out, "test_for", &tf);
    let dt = doc_texts(&r.symbol_docs);
    push_list_field(&mut out, "symbol_docs", &dt);
    push_str_chars(&mut out, "}");
    out
}

fn append_line(out: &mut Vec<char>, line: &Vec<char>)
    ensures
        final(out)@ == old(out)@ + line@ + "\n"@,
{
    let ghost before = out@;
    let mut k: usize = 0;
    while k < line.len()
        invariant
            k <= line@.len(),
            out@ == before + line@.take(k as int),
        decreases line.len() - k,
    {
        out.push(line[k]);
        assert(out@ =~= before + line@.take(k + 1));
        k = k + 1;
    }
    assert(line@.take(line@.len() as int) =~= line@);
    push_str_chars(out, "\n");
}

impl CodeIndex {
    /// The deterministic JSONL catalogue: one line per region, ordered by
    /// key and then by file.
    pub fn render_jsonl(&self) -> (s: String)
        ensures
            s@ == jsonl_of(region_recs(self.regions@)),
    {
        let idx = catalogue_indices(&self.regions);
        let ghost order = picked(self.regions@, idx@);
        let mut out: Vec<char> = Vec::new();
        let mut i: usize = 0;
        assert(order.take(0) =~= Seq::<RegionRec>::empty());
        while i < idx.len()
            invariant
                i <= idx@.len(),
                order == picked(self.regions@, idx@),
                forall|j: int| 0 <= j < idx@.len() ==> (#[trigger] idx@[j]) < self.regions@.len(),
                out@ == lines_of(order.take(i as int)),
            decreases idx.len() - i,
        {
            assert(order.take(i + 1).drop_last() =~= order.take(i as int));
            assert(order.take(i + 1).last() == region_rec(self.regions@[idx@[i as int] as int]));
            let line = render_region_json(&self.regions[idx[i]]);
            append_line(&mut out, &line);
            i = i + 1;
        }
        assert(order.take(idx@.len() as int) =~= order);
        string_from(&out)
    }
}

// ---------------------------------------------------------------------------
// Outcome of the repository verification.
// ---------------------------------------------------------------------------

/// Current coverage of the cartography. When the versioned authority cannot
/// be established, the state is `PolicyUnavailable` and counts as an error:
/// a missing authority never becomes a silent pass.
#[derive(Debug)]
pub enum CoverageOutcome {
    Checked {
        inventory: crate::nav_coverage::CoverageInventory,
        violations: Vec<crate::nav_coverage::CoverageViolation>,
    },
    PolicyUnavailable { reason: String },
}

pub open spec fn coverage_errors(c: CoverageOutcome) -> int {
    match c {
        CoverageOutcome::Checked { violations, .. } => violations@.len() as int,
        CoverageOutcome::PolicyUnavailable { .. } => 1,
    }
}

impl CoverageOutcome {
    /// One error per violation, or one when the authority is unavailable.
    pub fn error_count(&self) -> (n: usize)
        ensures
            n == coverage_errors(*self),
    {
        match self {
            CoverageOutcome::Checked { violations, .. } => violations.len(),
            CoverageOutcome::PolicyUnavailable { .. } => 1,
        }
    }

    pub fn is_ok(&self) -> (b: bool)
        ensures
            b == (coverage_errors(*self) == 0),
    {
        self.error_count() == 0
    }
}

/// The observable state produced by the repository verification, without
/// printing or writing.
#[derive(Debug)]
pub struct RepositoryVerification {
    pub index: CodeIndex,
    pub source_errors: Vec<NavVerifyError>,
    pub catalog_out_of_date: bool,
    pub coverage: CoverageOutcome,
}

impl RepositoryVerification {
    /// No source error, the catalogue up to date and the coverage clean.
    pub fn is_ok(&self) -> (b: bool)
        ensures
            b == (self.source_errors@.len() == 0 && !self.catalog_out_of_date && coverage_errors(self.coverage)
                == 0),
    {
        self.source_errors.len() == 0 && !self.catalog_out_of_date && self.coverage.is_ok()
    }

    /// Source errors, one for a stale catalogue, and the coverage errors.
    pub fn total_errors(&self) -> (n: usize)
        requires
            self.source_errors@.len() + 1 + coverage_errors(self.coverage) <= usize::MAX,
        ensures
            n == self.source_errors@.len() + (if self.catalog_out_of_date {
                1int
            } else {
                0int
            }) + coverage_errors(self.coverage),
    {
        let stale: usize = if self.catalog_out_of_date {
            1
        } else {
            0
        };
        self.source_errors.len() + stale + self.coverage.error_count()
    }
}

// ---------------------------------------------------------------------------
// Stable messages.
// ---------------------------------------------------------------------------

/// Texts joined by `, `.
pub open spec fn comma_joined(vs: Seq<Seq<char>>) -> Seq<char>
    decreases vs.len(),
{
    if vs.len() == 0 {
        Seq::empty()
    } else if vs.len() == 1 {
        vs[0]
    } else {
        comma_joined(vs.drop_last()) + ", "@ + vs.last()
    }
}

/// The stable text of a cartography divergence.
pub open spec fn problem_text(p: ProblemView) -> Seq<char> {
    match p {
        ProblemView::DuplicateKey { key, files } => "chave duplicada '"@ + key + "' em: "@ + comma_joined(files),
        ProblemView::StartWithoutEnd { key, file, line } => "marcador '"@ + key + "' aberto sem fim em "@ + file
            + ":"@ + decimal(line as nat),
        ProblemView::EndWithoutStart { key, file, line } => "marcador '"@ + key + "' fechado sem início em "@
            + file + ":"@ + decimal(line as nat),
        ProblemView::KeyMismatch { start, end, file } => "par de marcador divergente em "@ + file + ": início '"@
            + start + "' vs fim '"@ + end + "'"@,
        ProblemView::EmptyRange { key, file } => "região '"@ + key + "' vazia em "@ + file,
        ProblemView::InvalidKey { key, file, line } => "chave inválida '"@ + key + "' em "@ + file + ":"@ + decimal(
            line as nat,
        ) + " (formato [a-z0-9]+([._-][a-z0-9]+)*)"@,
        ProblemView::Overlap { outer, inner, file } => "sobreposição de regiões em "@ + file + ": '"@ + inner
            + "' dentro de '"@ + outer + "'"@,
        ProblemView::MalformedMeta { key, file, field } => "metadado malformado na região '"@ + key + "' em "@
            + file + ": campo '"@ + field + "'"@,
        ProblemView::ConflictingSymbolIdentity { identity, regions } => "identidade de símbolo '"@ + identity
            + "' possui nome ou categoria conflitante em: "@ + comma_joined(regions),
        ProblemView::MissingSymbolTarget { region, field, identity } => "região '"@ + region
            + "' referencia símbolo inexistente '"@ + identity + "' em '"@ + field + "'"@,
        ProblemView::InvalidTestLink { region, identity, layer } => "vínculo de teste da região '"@ + region
            + "' para '"@ + identity + "' exige layer evidence; encontrado "@ + match layer {
            Some(l) => l,
            None => "sem layer"@,
        },
        ProblemView::IndexOutOfDate { path } => "catálogo '"@ + path + "' dessincronizado; rode `pink nav sincronizar`"@,
    }
}

fn push_comma_joined(out: &mut Vec<char>, vs: &Vec<String>)
    ensures
        final(out)@ == old(out)@ + comma_joined(string_rows(vs@)),
{
    let ghost sv = string_rows(vs@);
    let ghost start = out@;
    let mut i: usize = 0;
    assert(start + comma_joined(sv.take(0)) =~= start);
    while i < vs.len()
        invariant
            i <= vs@.len(),
            sv == string_rows(vs@),
            out@ == start + comma_joined(sv.take(i as int)),
        decreases vs.len() - i,
    {
        assert(sv.take(i + 1).drop_last() =~= sv.take(i as int));
        assert(sv.take(i + 1).last() == vs@[i as int]@);
        if i > 0 {
            push_str_chars(out, ", ");
        }
        push_str_chars(out, vs[i].as_str());
        proof {
            if i == 0 {
                assert(sv.take(1) =~= seq![sv[0]]);
            }
        }
        assert(out@ =~= start + comma_joined(sv.take(i + 1)));
        i = i + 1;
    }
    assert(sv.take(vs@.len() as int) =~= sv);
}

impl NavVerifyError {
    /// The stable text of the divergence, as the command line shows it.
    #[verifier::spinoff_prover]
    pub fn message(&self) -> (s: String)
        ensures
            s@ == problem_text(problem_view(*self)),
    {
        let mut o: Vec<char> = Vec::new();
        match self {
            NavVerifyError::DuplicateKey { key, files } => {
                push_str_chars(&mut o, "chave duplicada '");
                push_str_chars(&mut o, key.as_str());
                push_str_chars(&mut o, "' em: ");
                push_comma_joined(&mut o, files);
                assert(o@ =~= problem_text(problem_view(*self)));
            },
            NavVerifyError::StartWithoutEnd { key, file, line } => {
                push_str_chars(&mut o, "marcador '");
                push_str_chars(&mut o, key.as_str());
                push_str_chars(&mut o, "' aberto sem fim em ");
                push_str_chars(&mut o, file.as_str());
                push_str_chars(&mut o, ":");
                push_decimal(&mut o, *line as u64);
                assert(o@ =~= problem_text(problem_view(*self)));
            },
            NavVerifyError::EndWithoutStart { key, file, line } => {
                push_str_chars(&mut o, "marcador '");
                push_str_chars(&mut o, key.as_str());
                push_str_chars(&mut o, "' fechado sem início em ");
                push_str_chars(&mut o, file.as_str());
                push_str_chars(&mut o, ":");
                push_decimal(&mut o, *line as u64);
                assert(o@ =~= problem_text(problem_view(*self)));
            },
            NavVerifyError::KeyMismatch { start, end, file } => {
                push_str_chars(&mut o, "par de marcador divergente em ");
                push_str_chars(&mut o, file.as_str());
                push_str_chars(&mut o, ": início '");
                push_str_chars(&mut o, start.as_str());
                push_str_chars(&mut o, "' vs fim '");
                push_str_chars(&mut o, end.as_str());
                push_str_chars(&mut o, "'");
                assert(o@ =~= problem_text(problem_view(*self)));
            },
            NavVerifyError::EmptyRange { key, file } => {
                push_str_chars(&mut o, "região '");
                push_str_chars(&mut o, key.as_str());
                push_str_chars(&mut o, "' vazia em ");
                push_str_chars(&mut o, file.as_str());
                assert(o@ =~= problem_text(problem_view(*self)));
            },
            NavVerifyError::InvalidKey { key, file, line } => {
                push_str_chars(&mut o, "chave inválida '");
                push_str_chars(&mut o, key.as_str());
                push_str_chars(&mut o, "' em ");
                push_str_chars(&mut o, file.as_str());
                push_str_chars(&mut o, ":");
                push_decimal(&mut o, *line as u64);
                push_str_chars(&mut o, " (formato [a-z0-9]+([._-][a-z0-9]+)*)");
                assert(o@ =~= problem_text(problem_view(*self)));
            },
            NavVerifyError::Overlap { outer, inner, file } => {
                push_str_chars(&mut o, "sobreposição de regiões em ");
                push_str_chars(&mut o, file.as_str());
                push_str_chars(&mut o, ": '");
                push_str_chars(&mut o, inner.as_str());
                push_str_chars(&mut o, "' dentro de '");
                push_str_chars(&mut o, outer.as_str());
                push_str_chars(&mut o, "'");
                assert(o@ =~= problem_text(problem_view(*self)));
            },
            NavVerifyError::MalformedMeta { key, file, field } => {
                push_str_chars(&mut o, "metadado malformado na região '");
                push_str_chars(&mut o, key.as_str());
                push_str_chars(&mut o, "' em ");
                push_str_chars(&mut o, file.as_str());
                push_str_chars(&mut o, ": campo '");
                push_str_chars(&mut o, field.as_str());
                push_str_chars(&mut o, "'");
                assert(o@ =~= problem_text(problem_view(*self)));
            },
            NavVerifyError::ConflictingSymbolIdentity { identity, regions } => {
                push_str_chars(&mut o, "identidade de símbolo '");
                push_str_chars(&mut o, identity.as_str());
                push_str_chars(&mut o, "' possui nome ou categoria conflitante em: ");
                push_comma_joined(&mut o, regions);
                assert(o@ =~= problem_text(problem_view(*self)));
            },
            NavVerifyError::MissingSymbolTarget { region, field, identity } => {
                push_str_chars(&mut o, "região '");
                push_str_chars(&mut o, region.as_str());
                push_str_chars(&mut o, "' referencia símbolo inexistente '");
                push_str_chars(&mut o, identity.as_str());
                push_str_chars(&mut o, "' em '");
                push_str_chars(&mut o, field.as_str());
                push_str_chars(&mut o, "'");
                assert(o@ =~= problem_text(problem_view(*self)));
            },
            NavVerifyError::InvalidTestLink { region, identity, layer } => {
                push_str_chars(&mut o, "vínculo de teste da região '");
                push_str_chars(&mut o, region.as_str());
                push_str_chars(&mut o, "' para '");
                push_str_chars(&mut o, identity.as_str());
                push_str_chars(&mut o, "' exige layer evidence; encontrado ");
                match layer {
                    Some(l) => push_str_chars(&mut o, l.as_str()),
                    None => push_str_chars(&mut o, "sem layer"),
                }
                assert(o@ =~= problem_text(problem_view(*self)));
            },
            NavVerifyError::IndexOutOfDate { path } => {
                push_str_chars(&mut o, "catálogo '");
                push_str_chars(&mut o, path.as_str());
                push_str_chars(&mut o, "' dessincronizado; rode `pink nav sincronizar`");
                assert(o@ =~= problem_text(problem_view(*self)));
            },
        }
        string_from(&o)
    }
}

/// The stable text of a failure before any scan.
pub open spec fn scan_error_text(kind: int, path: Seq<char>, msg: Seq<char>) -> Seq<char> {
    if kind == 0 {
        "E-NAV-SCAN\nFalha ao ler '"@ + path + "': "@ + msg
    } else if kind == 1 {
        "E-NAV-SCAN\nRaiz de código obrigatória ausente: '"@ + path + "'."@
    } else if kind == 2 {
        "E-NAV-SCAN\nRaiz de código não é um diretório: '"@ + path + "'."@
    } else {
        "E-NAV-SCAN\nRaiz de código recusada por ser um link simbólico: '"@ + path + "'."@
    }
}

pub open spec fn scan_error_view(e: ScanError) -> Seq<char> {
    match e {
        ScanError::Io { path, msg } => scan_error_text(0, path@, msg@),
        ScanError::RootMissing { path } => scan_error_text(1, path@, Seq::empty()),
        ScanError::RootNotDirectory { path } => scan_error_text(2, path@, Seq::empty()),
        ScanError::RootSymlinkRefused { path } => scan_error_text(3, path@, Seq::empty()),
    }
}

impl ScanError {
    /// The stable text of the failure, as the command line shows it.
    pub fn message(&self) -> (s: String)
        ensures
            s@ == scan_error_view(*self),
    {
        let mut o: Vec<char> = Vec::new();
        match self {
            ScanError::Io { path, msg } => {
                push_str_chars(&mut o, "E-NAV-SCAN\nFalha ao ler '");
                push_str_chars(&mut o, path.as_str());
                push_str_chars(&mut o, "': ");
                push_str_chars(&mut o, msg.as_str());
            },
            ScanError::RootMissing { path } => {
                push_str_chars(&mut o, "E-NAV-SCAN\nRaiz de código obrigatória ausente: '");
                push_str_chars(&mut o, path.as_str());
                push_str_chars(&mut o, "'.");
            },
            ScanError::RootNotDirectory { path } => {
                push_str_chars(&mut o, "E-NAV-SCAN\nRaiz de código não é um diretório: '");
                push_str_chars(&mut o, path.as_str());
                push_str_chars(&mut o, "'.");
            },
            ScanError::RootSymlinkRefused { path } => {
                push_str_chars(&mut o, "E-NAV-SCAN\nRaiz de código recusada por ser um link simbólico: '");
                push_str_chars(&mut o, path.as_str());
                push_str_chars(&mut o, "'.");
            },
        }
        proof {
            assert(o@ =~= scan_error_view(*self));
        }
        string_from(&o)
    }
}

// ---------------------------------------------------------------------------
// What the duplicate-key check reports.
// ---------------------------------------------------------------------------

/// The sorted key at `j` opens a run of a key that more than one region
/// carries.
pub open spec fn dup_emits(ks: Seq<Seq<char>>, rs: Seq<RegionRec>, j: int) -> bool {
    (j == 0 || ks[j] != ks[j - 1]) && files_with_key(rs, ks[j]).len() > 1
}

pub open spec fn dup_item(ks: Seq<Seq<char>>, rs: Seq<RegionRec>, j: int) -> ProblemView {
    ProblemView::DuplicateKey { key: ks[j], files: files_with_key(rs, ks[j]) }
}

proof fn lemma_duplicates_from(ks: Seq<Seq<char>>, rs: Seq<RegionRec>, i: int)
    requires
        0 <= i <= ks.len(),
    ensures
        forall|x: ProblemView|
            duplicates_from(ks, rs, i).contains(x) <==> exists|j: int|
                i <= j < ks.len() && #[trigger] dup_emits(ks, rs, j) && x == dup_item(ks, rs, j),
    decreases ks.len() - i,
{
    if i < ks.len() {
        lemma_duplicates_from(ks, rs, i + 1);
        let head = if dup_emits(ks, rs, i) {
            seq![dup_item(ks, rs, i)]
        } else {
            Seq::<ProblemView>::empty()
        };
        let tail = duplicates_from(ks, rs, i + 1);
        assert(duplicates_from(ks, rs, i) == head + tail);
        assert forall|x: ProblemView|
            (head + tail).contains(x) <==> exists|j: int|
                i <= j < ks.len() && #[trigger] dup_emits(ks, rs, j) && x == dup_item(ks, rs, j) by {
            if (head + tail).contains(x) {
                let k = choose|k: int| 0 <= k < (head + tail).len() && (head + tail)[k] == x;
                if k < head.len() {
                    assert(dup_emits(ks, rs, i) && x == dup_item(ks, rs, i));
                } else {
                    assert(tail[k - head.len()] == x);
                    assert(tail.contains(x));
                }
            }
            if exists|j: int| i <= j < ks.len() && #[trigger] dup_emits(ks, rs, j) && x == dup_item(ks, rs, j) {
                let j = choose|j: int| i <= j < ks.len() && #[trigger] dup_emits(ks, rs, j) && x == dup_item(ks, rs, j);
                if j == i {
                    assert((head + tail)[0] == x);
                } else {
                    assert(tail.contains(x));
                    let k = choose|k: int| 0 <= k < tail.len() && tail[k] == x;
                    assert((head + tail)[k + head.len()] == x);
                }
            }
        }
    } else {
        assert(duplicates_from(ks, rs, i) == Seq::<ProblemView>::empty());
    }
}

proof fn lemma_key_carried(rs: Seq<RegionRec>, k: Seq<char>)
    requires
        files_with_key(rs, k).len() > 0,
    ensures
        exists|i: int| 0 <= i < rs.len() && #[trigger] rs[i].key == k,
    decreases rs.len(),
{
    if rs.last().key != k {
        lemma_key_carried(rs.drop_last(), k);
        let i = choose|i: int| 0 <= i < rs.drop_last().len() && #[trigger] rs.drop_last()[i].key == k;
        assert(rs[i] == rs.drop_last()[i]);
    } else {
        assert(rs[rs.len() - 1].key == k);
    }
}

proof fn lemma_run_start(ks: Seq<Seq<char>>, k: Seq<char>, j0: int)
    requires
        0 <= j0 < ks.len(),
        ks[j0] == k,
    ensures
        exists|j: int| 0 <= j <= j0 && #[trigger] ks[j] == k && (j == 0 || ks[j - 1] != k),
    decreases j0,
{
    if j0 > 0 && ks[j0 - 1] == k {
        lemma_run_start(ks, k, j0 - 1);
    }
}

/// The duplicate-key check reports a key exactly when more than one region
/// carries it, with the files of those regions in catalogue order, and
/// reports nothing else.
pub proof fn law_duplicate_keys_exact(rs: Seq<RegionRec>)
    ensures
        forall|k: Seq<char>, fs: Seq<Seq<char>>|
            #[trigger] duplicate_keys(rs).contains(ProblemView::DuplicateKey { key: k, files: fs }) <==> (
            files_with_key(rs, k).len() > 1 && fs == files_with_key(rs, k)),
        forall|x: ProblemView| #[trigger] duplicate_keys(rs).contains(x) ==> x is DuplicateKey,
{
    broadcast use vstd::seq_lib::group_to_multiset_ensures;

    let ks = region_keys(rs).sort_by(text_le());
    lemma_seq_le_total_ordering();
    region_keys(rs).lemma_sort_by_ensures(text_le());
    lemma_duplicates_from(ks, rs, 0);
    assert forall|k: Seq<char>, fs: Seq<Seq<char>>|
        #[trigger] duplicate_keys(rs).contains(ProblemView::DuplicateKey { key: k, files: fs }) <==> (
        files_with_key(rs, k).len() > 1 && fs == files_with_key(rs, k)) by {
        let x = ProblemView::DuplicateKey { key: k, files: fs };
        if files_with_key(rs, k).len() > 1 && fs == files_with_key(rs, k) {
            lemma_key_carried(rs, k);
            let i = choose|i: int| 0 <= i < rs.len() && #[trigger] rs[i].key == k;
            assert(region_keys(rs)[i] == k);
            assert(region_keys(rs).contains(k));
            assert(region_keys(rs).to_multiset().count(k) > 0);
            assert(ks.to_multiset().count(k) > 0);
            assert(ks.contains(k));
            let j0 = choose|j: int| 0 <= j < ks.len() && ks[j] == k;
            lemma_run_start(ks, k, j0);
            let j = choose|j: int| 0 <= j <= j0 && #[trigger] ks[j] == k && (j == 0 || ks[j - 1] != k);
            assert(dup_emits(ks, rs, j) && x == dup_item(ks, rs, j));
        }
    }
}


proof fn lemma_targets_test_link(done: Seq<RegionRec>, rs: Seq<RegionRec>, i: int, k: int)
    requires
        0 <= i < done.len(),
        done[i].layer != Some(evidence()),
        0 <= k < done[i].test_for.len(),
    ensures
        targets(done, rs).contains(
            ProblemView::InvalidTestLink { region: done[i].key, identity: done[i].test_for[k], layer: done[i].layer },
        ),
    decreases done.len(),
{
    let x = ProblemView::InvalidTestLink { region: done[i].key, identity: done[i].test_for[k], layer: done[i].layer };
    let a = targets(done.drop_last(), rs);
    let r = region_targets(done.last(), rs);
    assert(targets(done, rs) == a + r);
    if i == done.len() - 1 {
        let m = missing(done.last().key, "related-symbol"@, done.last().related_symbols, rs) + missing(
            done.last().key,
            "test-for"@,
            done.last().test_for,
            rs,
        ) + missing(done.last().key, "symbol-doc"@, doc_ids(done.last()), rs);
        let b = bad_tests(done.last());
        assert(r == m + b);
        assert(b[k] == x);
        assert((a + r)[a.len() + m.len() + k] == x);
    } else {
        assert(done.drop_last()[i] == done[i]);
        lemma_targets_test_link(done.drop_last(), rs, i, k);
        let j = choose|j: int| 0 <= j < a.len() && a[j] == x;
        assert((a + r)[j] == x);
    }
}

/// Every test link of a region outside the evidence layer is reported by
/// the checks of the index, after the scan problems.
pub proof fn law_test_links_reported(scan: Seq<ProblemView>, rs: Seq<RegionRec>, i: int, k: int)
    requires
        0 <= i < rs.len(),
        rs[i].layer != Some(evidence()),
        0 <= k < rs[i].test_for.len(),
    ensures
        index_problems(scan, rs).take(scan.len() as int) == scan,
        index_problems(scan, rs).contains(
            ProblemView::InvalidTestLink { region: rs[i].key, identity: rs[i].test_for[k], layer: rs[i].layer },
        ),
{
    let x = ProblemView::InvalidTestLink { region: rs[i].key, identity: rs[i].test_for[k], layer: rs[i].layer };
    lemma_targets_test_link(rs, rs, i, k);
    let p = scan + duplicate_keys(rs) + conflicts(rs);
    let t = targets(rs, rs);
    let j = choose|j: int| 0 <= j < t.len() && t[j] == x;
    assert((p + t)[p.len() + j] == x);
    assert(index_problems(scan, rs).take(scan.len() as int) =~= scan);
}


// ---------------------------------------------------------------------------
// What the identity check reports.
// ---------------------------------------------------------------------------

/// Every symbol binding of the regions, region by region, each with the key
/// of its region.
pub open spec fn bindings(rs: Seq<RegionRec>) -> Seq<(Seq<char>, SymView)>
    decreases rs.len(),
{
    if rs.len() == 0 {
        Seq::empty()
    } else {
        pairs_of(rs[0].key, rs[0].symbols) + bindings(rs.drop_first())
    }
}

pub open spec fn pairs_of(key: Seq<char>, ss: Seq<SymView>) -> Seq<(Seq<char>, SymView)> {
    Seq::new(ss.len(), |j: int| (key, ss[j]))
}

pub open spec fn bind_fold(es: Seq<IdEntry>, errs: Seq<ProblemView>, bs: Seq<(Seq<char>, SymView)>) -> (
    Seq<IdEntry>,
    Seq<ProblemView>,
)
    decreases bs.len(),
{
    if bs.len() == 0 {
        (es, errs)
    } else {
        let (a, b) = sym_step(es, errs, bs[0].0, bs[0].1);
        bind_fold(a, b, bs.drop_first())
    }
}

proof fn lemma_syms_bind(es: Seq<IdEntry>, errs: Seq<ProblemView>, key: Seq<char>, ss: Seq<SymView>)
    ensures
        syms_fold(es, errs, key, ss) == bind_fold(es, errs, pairs_of(key, ss)),
    decreases ss.len(),
{
    if ss.len() > 0 {
        let (a, b) = sym_step(es, errs, key, ss[0]);
        lemma_syms_bind(a, b, key, ss.drop_first());
        assert(pairs_of(key, ss)[0] == (key, ss[0]));
        assert(pairs_of(key, ss).drop_first() =~= pairs_of(key, ss.drop_first()));
    } else {
        assert(pairs_of(key, ss) =~= Seq::<(Seq<char>, SymView)>::empty());
    }
}

proof fn lemma_bind_concat(es: Seq<IdEntry>, errs: Seq<ProblemView>, a: Seq<(Seq<char>, SymView)>, b: Seq<(Seq<char>, SymView)>)
    ensures
        bind_fold(es, errs, a + b) == bind_fold(bind_fold(es, errs, a).0, bind_fold(es, errs, a).1, b),
    decreases a.len(),
{
    if a.len() == 0 {
        assert(a + b =~= b);
    } else {
        let (x, y) = sym_step(es, errs, a[0].0, a[0].1);
        assert((a + b)[0] == a[0]);
        assert((a + b).drop_first() =~= a.drop_first() + b);
        lemma_bind_concat(x, y, a.drop_first(), b);
    }
}

proof fn lemma_regions_bind(es: Seq<IdEntry>, errs: Seq<ProblemView>, rs: Seq<RegionRec>)
    ensures
        regions_fold(es, errs, rs) == bind_fold(es, errs, bindings(rs)),
    decreases rs.len(),
{
    if rs.len() > 0 {
        let (a, b) = syms_fold(es, errs, rs[0].key, rs[0].symbols);
        lemma_syms_bind(es, errs, rs[0].key, rs[0].symbols);
        lemma_regions_bind(a, b, rs.drop_first());
        lemma_bind_concat(es, errs, pairs_of(rs[0].key, rs[0].symbols), bindings(rs.drop_first()));
    }
}

/// Some finding is an identity conflict on `id`.
pub open spec fn has_conflict(errs: Seq<ProblemView>, id: Seq<char>) -> bool {
    exists|i: int| 0 <= i < errs.len() && (#[trigger] errs[i]) is ConflictingSymbolIdentity
        && errs[i]->ConflictingSymbolIdentity_identity == id
}

/// Two bindings that disagree on the name or on the kind.
pub open spec fn differ(x: SymView, y: SymView) -> bool {
    x.name != y.name || x.kind != y.kind
}

proof fn lemma_find_update(es: Seq<IdEntry>, j: int, e: IdEntry, id: Seq<char>, i: int)
    requires
        0 <= j < es.len(),
        e.identity == es[j].identity,
        0 <= i,
    ensures
        find_from(es.update(j, e), id, i) == find_from(es, id, i),
    decreases es.len() - i,
{
    if i < es.len() {
        lemma_find_update(es, j, e, id, i + 1);
    }
}

proof fn lemma_find_push(es: Seq<IdEntry>, x: IdEntry, id: Seq<char>, i: int)
    requires
        0 <= i <= es.len(),
    ensures
        find_from(es.push(x), id, i) == (match find_from(es, id, i) {
            Some(k) => Some(k),
            None => if x.identity == id {
                Some(es.len() as int)
            } else {
                None
            },
        }),
    decreases es.len() - i,
{
    if i < es.len() {
        assert(es.push(x)[i] == es[i]);
        lemma_find_push(es, x, id, i + 1);
    } else {
        assert(es.push(x)[i] == x);
        assert(find_from(es.push(x), id, i + 1) is None);
    }
}

proof fn lemma_find_some(es: Seq<IdEntry>, id: Seq<char>, i: int)
    requires
        0 <= i,
        find_from(es, id, i) is Some,
    ensures
        i <= find_from(es, id, i)->0 < es.len(),
        es[find_from(es, id, i)->0].identity == id,
    decreases es.len() - i,
{
    if i < es.len() && es[i].identity != id {
        lemma_find_some(es, id, i + 1);
    }
}

/// One binding keeps the first binding recorded for `id`, records it when
/// it is the first, and keeps every conflict already found.
proof fn lemma_step_facts(es: Seq<IdEntry>, errs: Seq<ProblemView>, key: Seq<char>, s: SymView, id: Seq<char>)
    ensures
        ({
            let (es2, errs2) = sym_step(es, errs, key, s);
            &&& (find_from(es, id, 0) matches Some(j) ==> find_from(es2, id, 0) == Some(j) && es2[j].name
                == es[j].name && es2[j].kind == es[j].kind)
            &&& (find_from(es, id, 0) is None && s.identity == id ==> (find_from(es2, id, 0) matches Some(j)
                && es2[j].name == s.name && es2[j].kind == s.kind))
            &&& (find_from(es, id, 0) is None && s.identity != id ==> find_from(es2, id, 0) is None)
            &&& (has_conflict(errs, id) ==> has_conflict(errs2, id))
            &&& (find_from(es, id, 0) matches Some(j) && s.identity == id && (es[j].name != s.name || es[j].kind
                != s.kind) ==> has_conflict(errs2, id))
        }),
{
    let (es2, errs2) = sym_step(es, errs, key, s);
    match find_from(es, s.identity, 0) {
        Some(j) => {
            lemma_find_some(es, s.identity, 0);
            let e = es[j];
            let e2 = IdEntry { regions: e.regions.push(key), ..e };
            lemma_find_update(es, j, e2, id, 0);
            if has_conflict(errs, id) {
                let i = choose|i: int| 0 <= i < errs.len() && (#[trigger] errs[i]) is ConflictingSymbolIdentity
                    && errs[i]->ConflictingSymbolIdentity_identity == id;
                if differ(SymView { name: e.name, kind: e.kind, ..s }, s) {
                    assert(errs2[i] == errs[i]);
                }
            }
            if let Some(j0) = find_from(es, id, 0) {
                lemma_find_some(es, id, 0);
                if j0 == j {
                    assert(es2[j0] == e2);
                } else {
                    assert(es2[j0] == es[j0]);
                }
                if s.identity == id && (es[j0].name != s.name || es[j0].kind != s.kind) {
                    assert(j0 == j);
                    assert(errs2[errs.len() as int] is ConflictingSymbolIdentity);
                }
            }
        },
        None => {
            let x = IdEntry { identity: s.identity, name: s.name, kind: s.kind, regions: seq![key] };
            lemma_find_push(es, x, id, 0);
            if let Some(j0) = find_from(es, id, 0) {
                lemma_find_some(es, id, 0);
                assert(es2[j0] == es[j0]);
            }
            if find_from(es, id, 0) is None && s.identity == id {
                assert(es2[es.len() as int] == x);
            }
        },
    }
}


proof fn lemma_keep_conflict(es: Seq<IdEntry>, errs: Seq<ProblemView>, bs: Seq<(Seq<char>, SymView)>, id: Seq<char>)
    requires
        has_conflict(errs, id),
    ensures
        has_conflict(bind_fold(es, errs, bs).1, id),
    decreases bs.len(),
{
    if bs.len() > 0 {
        lemma_step_facts(es, errs, bs[0].0, bs[0].1, id);
        let (a, b) = sym_step(es, errs, bs[0].0, bs[0].1);
        lemma_keep_conflict(a, b, bs.drop_first(), id);
    }
}

/// Once `id` is recorded with a name and a kind, a later binding of `id`
/// that disagrees with them is reported.
proof fn lemma_later_conflict(
    es: Seq<IdEntry>,
    errs: Seq<ProblemView>,
    bs: Seq<(Seq<char>, SymView)>,
    id: Seq<char>,
    p: int,
)
    requires
        find_from(es, id, 0) is Some,
        0 <= p < bs.len(),
        bs[p].1.identity == id,
        bs[p].1.name != es[find_from(es, id, 0)->0].name || bs[p].1.kind != es[find_from(es, id, 0)->0].kind,
    ensures
        has_conflict(bind_fold(es, errs, bs).1, id),
    decreases bs.len(),
{
    lemma_step_facts(es, errs, bs[0].0, bs[0].1, id);
    let (a, b) = sym_step(es, errs, bs[0].0, bs[0].1);
    if p == 0 {
        lemma_keep_conflict(a, b, bs.drop_first(), id);
    } else {
        assert(bs.drop_first()[p - 1] == bs[p]);
        lemma_later_conflict(a, b, bs.drop_first(), id, p - 1);
    }
}

/// Two bindings of `id` that disagree on the name or the kind are reported,
/// when `id` was not recorded before them.
proof fn lemma_first_conflict(
    es: Seq<IdEntry>,
    errs: Seq<ProblemView>,
    bs: Seq<(Seq<char>, SymView)>,
    id: Seq<char>,
    x: int,
    y: int,
)
    requires
        find_from(es, id, 0) is None,
        0 <= x < y < bs.len(),
        bs[x].1.identity == id,
        bs[y].1.identity == id,
        differ(bs[x].1, bs[y].1),
    ensures
        has_conflict(bind_fold(es, errs, bs).1, id),
    decreases bs.len(),
{
    lemma_step_facts(es, errs, bs[0].0, bs[0].1, id);
    let (a, b) = sym_step(es, errs, bs[0].0, bs[0].1);
    let rest = bs.drop_first();
    if bs[0].1.identity != id {
        assert(x > 0);
        assert(rest[x - 1] == bs[x] && rest[y - 1] == bs[y]);
        lemma_first_conflict(a, b, rest, id, x - 1, y - 1);
    } else {
        let j = find_from(a, id, 0)->0;
        assert(a[j].name == bs[0].1.name && a[j].kind == bs[0].1.kind);
        if x == 0 {
            assert(rest[y - 1] == bs[y]);
            lemma_later_conflict(a, b, rest, id, y - 1);
        } else if differ(bs[0].1, bs[x].1) {
            assert(rest[x - 1] == bs[x]);
            lemma_later_conflict(a, b, rest, id, x - 1);
        } else {
            assert(rest[y - 1] == bs[y]);
            lemma_later_conflict(a, b, rest, id, y - 1);
        }
    }
}

proof fn lemma_bindings_index(rs: Seq<RegionRec>, i: int, j: int)
    requires
        0 <= i < rs.len(),
        0 <= j < rs[i].symbols.len(),
    ensures
        exists|p: int| 0 <= p < bindings(rs).len() && bindings(rs)[p] == (rs[i].key, rs[i].symbols[j]),
    decreases rs.len(),
{
    let h = pairs_of(rs[0].key, rs[0].symbols);
    let t = bindings(rs.drop_first());
    assert(bindings(rs) == h + t);
    if i == 0 {
        assert(h[j] == (rs[0].key, rs[0].symbols[j]));
        assert((h + t)[j] == h[j]);
        assert(bindings(rs)[j] == (rs[i].key, rs[i].symbols[j]));
    } else {
        assert(rs.drop_first()[i - 1] == rs[i]);
        lemma_bindings_index(rs.drop_first(), i - 1, j);
        let p = choose|p: int| 0 <= p < t.len() && t[p] == (rs[i].key, rs[i].symbols[j]);
        assert((h + t)[h.len() + p] == t[p]);
        assert(bindings(rs)[h.len() + p] == (rs[i].key, rs[i].symbols[j]));
    }
}

/// Two symbols of the index with the same identity but a different name or
/// a different kind are always reported as a conflict on that identity,
/// whichever regions declare them.
pub proof fn law_identity_conflict_reported(scan: Seq<ProblemView>, rs: Seq<RegionRec>, i1: int, j1: int, i2: int, j2: int)
    requires
        0 <= i1 < rs.len(),
        0 <= j1 < rs[i1].symbols.len(),
        0 <= i2 < rs.len(),
        0 <= j2 < rs[i2].symbols.len(),
        rs[i1].symbols[j1].identity == rs[i2].symbols[j2].identity,
        rs[i1].symbols[j1].name != rs[i2].symbols[j2].name || rs[i1].symbols[j1].kind != rs[i2].symbols[j2].kind,
    ensures
        exists|k: int|
            0 <= k < index_problems(scan, rs).len() && (#[trigger] index_problems(scan, rs)[k]) is ConflictingSymbolIdentity
                && index_problems(scan, rs)[k]->ConflictingSymbolIdentity_identity == rs[i1].symbols[j1].identity,
{
    let id = rs[i1].symbols[j1].identity;
    let bs = bindings(rs);
    lemma_bindings_index(rs, i1, j1);
    lemma_bindings_index(rs, i2, j2);
    let p1 = choose|p: int| 0 <= p < bs.len() && bs[p] == (rs[i1].key, rs[i1].symbols[j1]);
    let p2 = choose|p: int| 0 <= p < bs.len() && bs[p] == (rs[i2].key, rs[i2].symbols[j2]);
    assert(p1 != p2);
    let e = Seq::<IdEntry>::empty();
    let none = Seq::<ProblemView>::empty();
    assert(find_from(e, id, 0) is None);
    if p1 < p2 {
        lemma_first_conflict(e, none, bs, id, p1, p2);
    } else {
        lemma_first_conflict(e, none, bs, id, p2, p1);
    }
    lemma_regions_bind(e, none, rs);
    let c = conflicts(rs);
    assert(c == bind_fold(e, none, bs).1);
    let i = choose|i: int| 0 <= i < c.len() && (#[trigger] c[i]) is ConflictingSymbolIdentity
        && c[i]->ConflictingSymbolIdentity_identity == id;
    let pre = scan + duplicate_keys(rs);
    let t = targets(rs, rs);
    assert(index_problems(scan, rs) == pre + c + t);
    assert(index_problems(scan, rs)[pre.len() + i] == c[i]);
}

} // verus!
