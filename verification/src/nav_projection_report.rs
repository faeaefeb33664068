//! Semantic models and deterministic renderings of the projection command
//! surface: inventory, definition against observation, and composed
//! verification with root causes and blocked dependents, as human text and
//! as JSON without absolute paths.
use crate::nav::CodeRegion;
use crate::nav_projection_lifecycle::{bool_text, error_text, error_view, ErrorView, ProjectionError};
use crate::nav_projection_recipe::{composed_report, ids_increasing, lib_view, verify_composed, Library};
use crate::nav_projection_snapshot::rebuild::{code_regions_view, RegionView};
use crate::nav_projection_snapshot::report::{Outcome, VerifyReport};
use crate::nav_projection_snapshot::{failure_view, FailureView, HarnessFailure, SNAPSHOTS_DIR};
use crate::nav_projection_store::{
    artifact_error_view, errors_view, find_error, find_id, snapshot_id_of, store_library,
    stored_snapshot_view, ArtifactError, ProjectionStore, StoreView,
};
use crate::nav::{fnv_canonical, push_fnv_canonical};
use crate::nav_projection_lifecycle::PROJECTION_CLI_SCHEMA;
use crate::nav_projection_snapshot::report::{json_quoted, measures_json, push_json_string, push_measures_json};
use crate::nav_projection_snapshot::message::failure_message;
use crate::nav_projection_snapshot::report::{
    divergence_view, divergences_json, divergences_view, one_line, one_line_exec, outcome_name, Divergence,
    DivergenceView,
};
use crate::nav_projection_snapshot::{
    failure_code, opt_view, rule_expected, rules_view, rule_op, rule_selector, rule_view, snapshot_view, state_name,
    Measures, ProjectionSnapshot, Rule, RuleView, SnapshotView,
};
use crate::nav_projection_store::{kind_name, ArtifactErrorView, StoredSnapshot, StoredSnapshotView};
use crate::text::{chars_of, decimal, push_all, push_decimal, push_str_chars, rows, seq_lt, string_from, string_rows};
use vstd::prelude::*;

verus! {

/// One snapshot verified, with the path of its artifact.
#[derive(Debug)]
pub struct VerificationItem {
    pub path: String,
    pub report: VerifyReport,
}

/// A snapshot whose verification was blocked by the divergence of its base.
#[derive(Debug)]
pub struct BlockedItem {
    pub snapshot: String,
    pub path: String,
    pub reason: String,
}

/// The snapshots blocked by one root cause.
#[derive(Debug)]
pub struct CauseGroup {
    pub cause: String,
    pub blocked: Vec<BlockedItem>,
}

/// The verification of every snapshot of a store.
#[derive(Debug)]
pub struct VerificationBatch {
    pub results: Vec<VerificationItem>,
    pub causes: Vec<CauseGroup>,
    pub errors: Vec<ArtifactError>,
}

pub open spec fn is_harness(r: VerifyReport) -> bool {
    r.outcome is HarnessFailure
}

pub open spec fn is_drift(r: VerifyReport) -> bool {
    r.outcome is Drift
}

/// `HARNESS_FAILURE` when anything failed structurally or was blocked,
/// else `DRIFT` when a result drifted, else `MATCH`.
pub open spec fn batch_outcome(b: VerificationBatch) -> Seq<char> {
    if b.errors@.len() > 0 || b.causes@.len() > 0 || exists|k: int|
        0 <= k < b.results@.len() && is_harness(#[trigger] b.results@[k].report) {
        "HARNESS_FAILURE"@
    } else if exists|k: int| 0 <= k < b.results@.len() && is_drift(#[trigger] b.results@[k].report) {
        "DRIFT"@
    } else {
        "MATCH"@
    }
}

impl VerificationBatch {
    pub fn outcome(&self) -> (s: &'static str)
        ensures
            s@ == batch_outcome(*self),
    {
        let mut harness = self.errors.len() > 0 || self.causes.len() > 0;
        let mut drift = false;
        let mut k: usize = 0;
        while k < self.results.len()
            invariant
                k <= self.results@.len(),
                harness == (self.errors@.len() > 0 || self.causes@.len() > 0 || exists|j: int|
                    0 <= j < k && is_harness(#[trigger] self.results@[j].report)),
                drift == exists|j: int| 0 <= j < k && is_drift(#[trigger] self.results@[j].report),
            decreases self.results.len() - k,
        {
            match &self.results[k].report.outcome {
                Outcome::HarnessFailure(_) => {
                    harness = true;
                },
                Outcome::Drift(_) => {
                    drift = true;
                },
                Outcome::Match => {},
            }
            proof {
                assert(is_harness(self.results@[k as int].report) ==> exists|j: int|
                    0 <= j < k + 1 && is_harness(#[trigger] self.results@[j].report));
                assert(is_drift(self.results@[k as int].report) ==> exists|j: int|
                    0 <= j < k + 1 && is_drift(#[trigger] self.results@[j].report));
            }
            k = k + 1;
        }
        if harness {
            "HARNESS_FAILURE"
        } else if drift {
            "DRIFT"
        } else {
            "MATCH"
        }
    }
}

/// What verifying one snapshot of a store gives: the failure of its
/// artifact as a harness error, `NotFound` when it does not exist, else its
/// composed verification against the library of the store.
pub open spec fn verified_one(
    st: StoreView,
    id: Seq<char>,
    cat: Seq<RegionView>,
    r: Result<VerificationItem, ProjectionError>,
) -> bool {
    match find_error(st.errors, SNAPSHOTS_DIR@ + id + ".toml"@, 0) {
        Some(k) => r matches Err(e) && error_view(e) == (ErrorView::Harness {
            path: Some(st.errors[k].path),
            message: st.errors[k].message,
        }),
        None => match find_id(st.snapshots, snapshot_id_of(), id, 0) {
            None => r matches Err(e) && error_view(e) == (ErrorView::NotFound { id }),
            Some(k) => r matches Ok(item) && item.path@ == st.snapshots[k].path && composed_report(
                item.report,
                store_library(st),
                id,
                cat,
            ),
        },
    }
}

fn owned(s: &str) -> (r: String)
    ensures
        r@ == s@,
{
    s.to_owned()
}

/// Verifies one snapshot of the store, composed with its dependencies.
pub fn verify_one(store: &ProjectionStore, id: &str, catalog: &[CodeRegion]) -> (r: Result<
    VerificationItem,
    ProjectionError,
>)
    requires
        store.wf(),
    ensures
        verified_one(store.view_of(), id@, code_regions_view(catalog@), r),
{
    match store.snapshot_error(id) {
        Some(error) => {
            return Err(
                ProjectionError::Harness { path: Some(error.path.clone()), message: error.message.clone() },
            );
        },
        None => {},
    }
    let stored = match store.snapshot(id) {
        Some(s) => s,
        None => {
            return Err(ProjectionError::NotFound { id: owned(id) });
        },
    };
    let library = match store.library() {
        Ok(l) => l,
        Err(failure) => {
            return Err(crate::nav_projection_lifecycle::harness_failure(failure));
        },
    };
    Ok(VerificationItem { path: stored.path.clone(), report: verify_composed(&library, id, catalog) })
}

/// The base whose divergence blocked a report, if that is its outcome.
pub open spec fn blocked_cause(r: VerifyReport) -> Option<Seq<char>> {
    match r.outcome {
        Outcome::HarnessFailure(f) => match failure_view(f) {
            FailureView::BaseMeasuresDiverged { id, .. } => Some(id),
            _ => None,
        },
        _ => None,
    }
}

pub open spec fn is_open(it: VerificationItem) -> bool {
    blocked_cause(it.report) is None
}

pub open spec fn blocked_by(it: VerificationItem, c: Seq<char>) -> bool {
    blocked_cause(it.report) == Some(c)
}

/// Why a snapshot is blocked by the base `c`.
pub open spec fn blocked_reason(c: Seq<char>) -> Seq<char> {
    "base '"@ + c + "' não corresponde às próprias medidas"@
}

pub struct BlockedView {
    pub snapshot: Seq<char>,
    pub path: Seq<char>,
    pub reason: Seq<char>,
}

pub open spec fn blocked_view(b: BlockedItem) -> BlockedView {
    BlockedView { snapshot: b.snapshot@, path: b.path@, reason: b.reason@ }
}

pub open spec fn blocked_entry(it: VerificationItem, c: Seq<char>) -> BlockedView {
    BlockedView { snapshot: it.report.snapshot_id@, path: it.path@, reason: blocked_reason(c) }
}

/// The entries blocked by the base `c`, in the order of the items.
pub open spec fn group_entries(items: Seq<VerificationItem>, c: Seq<char>) -> Seq<BlockedView> {
    items.filter(|it: VerificationItem| blocked_by(it, c)).map_values(
        |it: VerificationItem| blocked_entry(it, c),
    )
}

pub open spec fn cause_keys(b: VerificationBatch) -> Seq<Seq<char>> {
    b.causes@.map_values(|g: CauseGroup| g.cause@)
}

/// A batch made of verified items: the items that no base blocked, in their
/// order; one group per blocking base, in the order of the bases, each with
/// its blocked snapshots in the order of the items; the structural failures.
pub open spec fn batch_of(items: Seq<VerificationItem>, errors: Seq<crate::nav_projection_store::ArtifactErrorView>, b: VerificationBatch) -> bool {
    &&& b.results@ == items.filter(|it: VerificationItem| is_open(it))
    &&& ids_increasing(cause_keys(b))
    &&& forall|c: Seq<char>| #[trigger]
        cause_keys(b).contains(c) <==> exists|k: int| 0 <= k < items.len() && #[trigger] blocked_by(items[k], c)
    &&& forall|g: int|
        0 <= g < b.causes@.len() ==> (#[trigger] b.causes@[g]).blocked@.map_values(
            |x: BlockedItem| blocked_view(x),
        ) == group_entries(items, b.causes@[g].cause@)
    &&& errors_view(b.errors@) == errors
}

/// One item per snapshot of the store, in its order, each the composed
/// verification of that snapshot against the library of the store.
pub open spec fn store_items(items: Seq<VerificationItem>, st: StoreView, cat: Seq<RegionView>) -> bool {
    &&& items.len() == st.snapshots.len()
    &&& forall|k: int|
        0 <= k < items.len() ==> (#[trigger] items[k]).path@ == st.snapshots[k].path && composed_report(
            items[k].report,
            store_library(st),
            st.snapshots[k].snapshot.id,
            cat,
        )
}

fn blocked_cause_exec(r: &VerifyReport) -> (c: Option<String>)
    ensures
        match c {
            Some(s) => blocked_cause(*r) == Some(s@),
            None => blocked_cause(*r) is None,
        },
{
    match &r.outcome {
        Outcome::HarnessFailure(f) => match f {
            HarnessFailure::BaseMeasuresDiverged { id, .. } => Some(id.clone()),
            _ => None,
        },
        _ => None,
    }
}

proof fn lemma_filter_push<A>(s: Seq<A>, x: A, p: spec_fn(A) -> bool)
    ensures
        s.push(x).filter(p) == if p(x) {
            s.filter(p).push(x)
        } else {
            s.filter(p)
        },
{
    reveal(Seq::filter);
    assert(s.push(x).drop_last() =~= s);
}

fn clone_errors(v: &Vec<ArtifactError>) -> (r: Vec<ArtifactError>)
    ensures
        errors_view(r@) == errors_view(v@),
{
    let mut r: Vec<ArtifactError> = Vec::new();
    let mut i: usize = 0;
    while i < v.len()
        invariant
            i <= v@.len(),
            r@.len() == i,
            forall|k: int| 0 <= k < i ==> artifact_error_view(#[trigger] r@[k]) == artifact_error_view(v@[k]),
        decreases v.len() - i,
    {
        r.push(ArtifactError { path: v[i].path.clone(), kind: v[i].kind, message: v[i].message.clone() });
        i = i + 1;
    }
    assert(errors_view(r@) =~= errors_view(v@));
    r
}

/// The sorted distinct bases that block some item.
fn blocking_bases(blocked: &Vec<VerificationItem>) -> (keys: Vec<Vec<char>>)
    requires
        forall|k: int| 0 <= k < blocked@.len() ==> !is_open(#[trigger] blocked@[k]),
    ensures
        ids_increasing(rows(keys@)),
        forall|c: Seq<char>| #[trigger]
            rows(keys@).contains(c) <==> exists|k: int| 0 <= k < blocked@.len() && #[trigger] blocked_by(blocked@[k], c),
{
    let mut keys: Vec<Vec<char>> = Vec::new();
    let mut i: usize = 0;
    while i < blocked.len()
        invariant
            i <= blocked@.len(),
            forall|k: int| 0 <= k < blocked@.len() ==> !is_open(#[trigger] blocked@[k]),
            ids_increasing(rows(keys@)),
            forall|c: Seq<char>| #[trigger]
                rows(keys@).contains(c) <==> exists|k: int| 0 <= k < i && #[trigger] blocked_by(blocked@[k], c),
        decreases blocked.len() - i,
    {
        let cause = blocked_cause_exec(&blocked[i].report);
        let c = match cause {
            Some(s) => chars_of(s.as_str()),
            None => {
                assert(!is_open(blocked@[i as int]));
                Vec::new()
            },
        };
        let ghost old_rows = rows(keys@);
        assert(blocked_by(blocked@[i as int], c@));
        let k = crate::nav_projection_recipe::slot(&keys, &c);
        let present = k < keys.len() && crate::text::vec_eq(&keys[k], &c);
        if !present {
            proof {
                if k < keys@.len() {
                    assert(rows(keys@)[k as int] == keys@[k as int]@);
                    crate::text::lemma_seq_lt_total(rows(keys@)[k as int], c@);
                }
                crate::nav_projection_recipe::lemma_insert_increasing(old_rows, k as int, c@);
            }
            keys.insert(k, c);
            proof {
                assert(rows(keys@) =~= old_rows.insert(k as int, c@));
            }
        }
        proof {
            if present {
                assert(rows(keys@)[k as int] == c@);
            }
            assert forall|x: Seq<char>| #[trigger]
                rows(keys@).contains(x) <==> exists|m: int| 0 <= m < i + 1 && #[trigger] blocked_by(blocked@[m], x) by {
                if rows(keys@).contains(x) {
                    if x != c@ {
                        if !present {
                            let j = choose|j: int| 0 <= j < rows(keys@).len() && rows(keys@)[j] == x;
                            if j < k {
                                assert(old_rows[j] == x);
                            } else {
                                assert(old_rows[j - 1] == x);
                            }
                        }
                        assert(old_rows.contains(x));
                        let m = choose|m: int| 0 <= m < i && #[trigger] blocked_by(blocked@[m], x);
                        assert(0 <= m < i + 1 && blocked_by(blocked@[m], x));
                    } else {
                        assert(blocked_by(blocked@[i as int], x));
                    }
                }
                if exists|m: int| 0 <= m < i + 1 && #[trigger] blocked_by(blocked@[m], x) {
                    let m = choose|m: int| 0 <= m < i + 1 && #[trigger] blocked_by(blocked@[m], x);
                    if m < i {
                        assert(old_rows.contains(x));
                        let j = choose|j: int| 0 <= j < old_rows.len() && old_rows[j] == x;
                        if !present {
                            if j < k {
                                assert(rows(keys@)[j] == x);
                            } else {
                                assert(rows(keys@)[j + 1] == x);
                            }
                        } else {
                            assert(rows(keys@)[j] == x);
                        }
                    } else {
                        assert(x == c@);
                        if !present {
                            assert(rows(keys@)[k as int] == x);
                        } else {
                            assert(rows(keys@)[k as int] == x);
                        }
                    }
                }
            }
        }
        i = i + 1;
    }
    keys
}

fn blocked_group(blocked: &Vec<VerificationItem>, cause: &Vec<char>) -> (g: CauseGroup)
    ensures
        g.cause@ == cause@,
        g.blocked@.map_values(|x: BlockedItem| blocked_view(x)) == blocked@.filter(
            |it: VerificationItem| blocked_by(it, cause@),
        ).map_values(|it: VerificationItem| blocked_entry(it, cause@)),
{
    let ghost p = |it: VerificationItem| blocked_by(it, cause@);
    let ghost f = |it: VerificationItem| blocked_entry(it, cause@);
    let cause_text = string_from(cause);
    let mut reason_chars: Vec<char> = Vec::new();
    push_str_chars(&mut reason_chars, "base '");
    push_str_chars(&mut reason_chars, cause_text.as_str());
    push_str_chars(&mut reason_chars, "' não corresponde às próprias medidas");
    let mut out: Vec<BlockedItem> = Vec::new();
    let mut i: usize = 0;
    assert(blocked@.take(0).filter(p) =~= Seq::<VerificationItem>::empty()) by {
        reveal(Seq::filter);
    }
    while i < blocked.len()
        invariant
            i <= blocked@.len(),
            cause_text@ == cause@,
            reason_chars@ == blocked_reason(cause@),
            p == (|it: VerificationItem| blocked_by(it, cause@)),
            f == (|it: VerificationItem| blocked_entry(it, cause@)),
            out@.map_values(|x: BlockedItem| blocked_view(x)) == blocked@.take(i as int).filter(p).map_values(f),
        decreases blocked.len() - i,
    {
        let c = blocked_cause_exec(&blocked[i].report);
        proof {
            assert(blocked@.take(i + 1) =~= blocked@.take(i as int).push(blocked@[i as int]));
            lemma_filter_push(blocked@.take(i as int), blocked@[i as int], p);
        }
        let hit = match &c {
            Some(s) => crate::text::str_eq(s.as_str(), cause_text.as_str()),
            None => false,
        };
        let ghost prev = out@;
        if hit {
            out.push(
                BlockedItem {
                    snapshot: blocked[i].report.snapshot_id.clone(),
                    path: blocked[i].path.clone(),
                    reason: string_from(&reason_chars),
                },
            );
            proof {
                assert(p(blocked@[i as int]));
                assert(out@ == prev.push(out@.last()));
                assert(blocked_view(out@.last()) == f(blocked@[i as int]));
                let t = blocked@.take(i as int).filter(p);
                assert(t.push(blocked@[i as int]).map_values(f) =~= t.map_values(f).push(f(blocked@[i as int])));
                assert(out@.map_values(|x: BlockedItem| blocked_view(x)) =~= prev.map_values(|x: BlockedItem| blocked_view(x)).push(blocked_view(out@.last())));
                assert(out@.map_values(|x: BlockedItem| blocked_view(x)) =~= blocked@.take(i + 1).filter(p).map_values(f));
            }
        } else {
            proof {
                assert(!p(blocked@[i as int]));
            }
        }
        i = i + 1;
    }
    assert(blocked@.take(i as int) =~= blocked@);
    CauseGroup { cause: cause_text, blocked: out }
}

proof fn lemma_filter_filter<A>(s: Seq<A>, p: spec_fn(A) -> bool, q: spec_fn(A) -> bool)
    requires
        forall|x: A| #[trigger] q(x) ==> p(x),
    ensures
        s.filter(p).filter(q) == s.filter(q),
    decreases s.len(),
{
    reveal(Seq::filter);
    if s.len() > 0 {
        lemma_filter_filter(s.drop_last(), p, q);
        lemma_filter_push(s.drop_last(), s.last(), p);
        lemma_filter_push(s.drop_last(), s.last(), q);
        lemma_filter_push(s.drop_last().filter(p), s.last(), q);
        assert(s.drop_last().push(s.last()) =~= s);
    }
}

/// Verifies every snapshot of the store. A snapshot blocked by the
/// divergence of its base goes under that root cause instead of the results.
pub fn verify_all(store: &ProjectionStore, catalog: &[CodeRegion]) -> (b: VerificationBatch)
    requires
        store.wf(),
    ensures
        exists|items: Seq<VerificationItem>|
            store_items(items, store.view_of(), code_regions_view(catalog@)) && batch_of(
                items,
                store.view_of().errors,
                b,
            ),
{
    let ghost st = store.view_of();
    let ghost cat = code_regions_view(catalog@);
    let library = match store.library() {
        Ok(l) => l,
        Err(_) => Library::new(),
    };
    let snaps = store.snapshots();
    let mut open: Vec<VerificationItem> = Vec::new();
    let mut blocked: Vec<VerificationItem> = Vec::new();
    let ghost mut items: Seq<VerificationItem> = Seq::empty();
    let ghost po = |it: VerificationItem| is_open(it);
    let ghost pb = |it: VerificationItem| !is_open(it);
    let mut i: usize = 0;
    assert(items.filter(po) =~= Seq::<VerificationItem>::empty()) by {
        reveal(Seq::filter);
    }
    assert(items.filter(pb) =~= Seq::<VerificationItem>::empty()) by {
        reveal(Seq::filter);
    }
    while i < snaps.len()
        invariant
            i <= snaps@.len(),
            snaps@.len() == st.snapshots.len(),
            forall|k: int| 0 <= k < snaps@.len() ==> stored_snapshot_view(*#[trigger] snaps@[k]) == st.snapshots[k],
            lib_view(library) == store_library(st),
            st == store.view_of(),
            cat == code_regions_view(catalog@),
            po == (|it: VerificationItem| is_open(it)),
            pb == (|it: VerificationItem| !is_open(it)),
            items.len() == i,
            forall|k: int|
                0 <= k < i ==> (#[trigger] items[k]).path@ == st.snapshots[k].path && composed_report(
                    items[k].report,
                    store_library(st),
                    st.snapshots[k].snapshot.id,
                    cat,
                ),
            open@ == items.filter(po),
            blocked@ == items.filter(pb),
        decreases snaps.len() - i,
    {
        let stored = snaps[i];
        assert(stored_snapshot_view(*stored) == st.snapshots[i as int]);
        let report = verify_composed(&library, stored.snapshot.id.as_str(), catalog);
        let item = VerificationItem { path: stored.path.clone(), report };
        let cause = blocked_cause_exec(&item.report);
        proof {
            lemma_filter_push(items, item, po);
            lemma_filter_push(items, item, pb);
            items = items.push(item);
        }
        match cause {
            None => {
                open.push(item);
            },
            Some(_) => {
                blocked.push(item);
            },
        }
        i = i + 1;
    }
    proof {
        assert forall|k: int| 0 <= k < blocked@.len() implies !is_open(#[trigger] blocked@[k]) by {
            items.lemma_filter_pred(pb, k);
        }
    }
    let keys = blocking_bases(&blocked);
    let mut causes: Vec<CauseGroup> = Vec::new();
    let mut j: usize = 0;
    while j < keys.len()
        invariant
            j <= keys@.len(),
            blocked@ == items.filter(pb),
            pb == (|it: VerificationItem| !is_open(it)),
            causes@.len() == j,
            forall|g: int| 0 <= g < j ==> (#[trigger] causes@[g]).cause@ == keys@[g]@,
            forall|g: int|
                0 <= g < j ==> (#[trigger] causes@[g]).blocked@.map_values(|x: BlockedItem| blocked_view(x))
                    == group_entries(items, causes@[g].cause@),
        decreases keys.len() - j,
    {
        let g = blocked_group(&blocked, &keys[j]);
        proof {
            let q = |it: VerificationItem| blocked_by(it, keys@[j as int]@);
            lemma_filter_filter(items, pb, q);
        }
        causes.push(g);
        j = j + 1;
    }
    let b = VerificationBatch { results: open, causes, errors: clone_errors(store.errors()) };
    proof {
        assert(cause_keys(b) =~= rows(keys@));
        assert forall|c: Seq<char>| #[trigger]
            cause_keys(b).contains(c) implies exists|k: int| 0 <= k < items.len() && #[trigger] blocked_by(items[k], c) by {
            let m = choose|m: int| 0 <= m < blocked@.len() && #[trigger] blocked_by(blocked@[m], c);
            items.lemma_filter_contains_rev(pb, blocked@[m]);
            let k = choose|k: int| 0 <= k < items.len() && items[k] == blocked@[m];
            assert(blocked_by(items[k], c));
        }
        assert forall|c: Seq<char>|
            (exists|k: int| 0 <= k < items.len() && #[trigger] blocked_by(items[k], c)) implies #[trigger] cause_keys(b).contains(c) by {
            let k = choose|k: int| 0 <= k < items.len() && #[trigger] blocked_by(items[k], c);
            assert(pb(items[k]));
            items.lemma_filter_contains(pb, k);
            let m = choose|m: int| 0 <= m < blocked@.len() && blocked@[m] == items[k];
            assert(blocked_by(blocked@[m], c));
            assert(rows(keys@).contains(c));
        }
        assert(store_items(items, st, cat));
        assert(batch_of(items, st.errors, b));
    }
    b
}


// ---------------------------------------------------------------------------
// Texts shared by the renderings.
// ---------------------------------------------------------------------------

/// Texts separated by commas.
pub open spec fn joined(parts: Seq<Seq<char>>) -> Seq<char>
    decreases parts.len(),
{
    if parts.len() == 0 {
        Seq::empty()
    } else if parts.len() == 1 {
        parts[0]
    } else {
        joined(parts.drop_last()) + ","@ + parts.last()
    }
}

/// Texts one after the other.
pub open spec fn concat(parts: Seq<Seq<char>>) -> Seq<char>
    decreases parts.len(),
{
    if parts.len() == 0 {
        Seq::empty()
    } else {
        concat(parts.drop_last()) + parts.last()
    }
}

pub(crate) proof fn lemma_joined_push(parts: Seq<Seq<char>>, x: Seq<char>)
    ensures
        joined(parts.push(x)) == joined(parts) + (if parts.len() > 0 {
            ","@
        } else {
            Seq::<char>::empty()
        }) + x,
{
    assert(parts.push(x).drop_last() =~= parts);
    assert(parts.push(x).last() == x);
    if parts.len() == 0 {
        assert(parts.push(x)[0] == x);
        assert(Seq::<char>::empty() + Seq::<char>::empty() + x =~= x);
    }
}

pub(crate) proof fn lemma_concat_push(parts: Seq<Seq<char>>, x: Seq<char>)
    ensures
        concat(parts.push(x)) == concat(parts) + x,
{
    assert(parts.push(x).drop_last() =~= parts);
}

/// An optional text, or a dash when absent.
pub open spec fn opt_human(o: Option<Seq<char>>) -> Seq<char> {
    match o {
        Some(v) => v,
        None => "—"@,
    }
}

/// An optional text as JSON, `null` when absent.
pub open spec fn opt_json(o: Option<Seq<char>>) -> Seq<char> {
    match o {
        Some(v) => json_quoted(v),
        None => "null"@,
    }
}

/// Recipe identifiers separated by commas, or a dash when there is none.
pub open spec fn recipes_human(rs: Seq<Seq<char>>) -> Seq<char> {
    if rs.len() == 0 {
        "—"@
    } else {
        joined(rs)
    }
}

pub open spec fn quoted_all(rs: Seq<Seq<char>>) -> Seq<Seq<char>> {
    rs.map_values(|r: Seq<char>| json_quoted(r))
}

/// A JSON array of texts.
pub open spec fn strings_json(rs: Seq<Seq<char>>) -> Seq<char> {
    "["@ + joined(quoted_all(rs)) + "]"@
}

/// `regioes=R comprimento=L fnv1a64:...`.
pub open spec fn measures_human(m: Measures) -> Seq<char> {
    "regioes="@ + decimal(m.regions as nat) + " comprimento="@ + decimal(m.length as nat) + " "@
        + fnv_canonical(m.fnv1a64)
}

fn push_opt_human(out: &mut Vec<char>, o: &Option<String>)
    ensures
        final(out)@ == old(out)@ + opt_human(opt_view(*o)),
{
    match o {
        Some(v) => push_str_chars(out, v.as_str()),
        None => push_str_chars(out, "—"),
    }
}

fn push_opt_json(out: &mut Vec<char>, o: &Option<String>)
    ensures
        final(out)@ == old(out)@ + opt_json(opt_view(*o)),
{
    match o {
        Some(v) => push_json_string(out, v.as_str()),
        None => push_str_chars(out, "null"),
    }
}

fn push_joined_texts(out: &mut Vec<char>, rs: &Vec<String>)
    ensures
        final(out)@ == old(out)@ + joined(string_rows(rs@)),
{
    let ghost start = out@;
    let ghost parts = string_rows(rs@);
    let mut i: usize = 0;
    assert(parts.take(0) =~= Seq::<Seq<char>>::empty());
    assert(start + joined(Seq::empty()) =~= start);
    while i < rs.len()
        invariant
            i <= rs@.len(),
            parts == string_rows(rs@),
            out@ == start + joined(parts.take(i as int)),
        decreases rs.len() - i,
    {
        proof {
            lemma_joined_push(parts.take(i as int), parts[i as int]);
            assert(parts.take(i + 1) =~= parts.take(i as int).push(parts[i as int]));
        }
        if i > 0 {
            push_str_chars(out, ",");
        }
        push_str_chars(out, rs[i].as_str());
        assert(out@ =~= start + joined(parts.take(i + 1)));
        i = i + 1;
    }
    assert(parts.take(i as int) =~= parts);
}

fn push_recipes_human(out: &mut Vec<char>, rs: &Vec<String>)
    ensures
        final(out)@ == old(out)@ + recipes_human(string_rows(rs@)),
{
    if rs.len() == 0 {
        push_str_chars(out, "—");
    } else {
        push_joined_texts(out, rs);
    }
}

fn push_strings_json(out: &mut Vec<char>, rs: &Vec<String>)
    ensures
        final(out)@ == old(out)@ + strings_json(string_rows(rs@)),
{
    let ghost first = out@;
    push_str_chars(out, "[");
    let ghost start = out@;
    let ghost parts = quoted_all(string_rows(rs@));
    let mut i: usize = 0;
    assert(parts.take(0) =~= Seq::<Seq<char>>::empty());
    assert(start + joined(Seq::empty()) =~= start);
    while i < rs.len()
        invariant
            i <= rs@.len(),
            parts == quoted_all(string_rows(rs@)),
            out@ == start + joined(parts.take(i as int)),
        decreases rs.len() - i,
    {
        proof {
            lemma_joined_push(parts.take(i as int), parts[i as int]);
            assert(parts.take(i + 1) =~= parts.take(i as int).push(parts[i as int]));
        }
        if i > 0 {
            push_str_chars(out, ",");
        }
        push_json_string(out, rs[i].as_str());
        assert(out@ =~= start + joined(parts.take(i + 1)));
        i = i + 1;
    }
    assert(parts.take(i as int) =~= parts);
    push_str_chars(out, "]");
    assert(out@ =~= first + strings_json(string_rows(rs@)));
}

fn push_measures_human(out: &mut Vec<char>, m: &Measures)
    ensures
        final(out)@ == old(out)@ + measures_human(*m),
{
    push_str_chars(out, "regioes=");
    push_decimal(out, m.regions);
    push_str_chars(out, " comprimento=");
    push_decimal(out, m.length);
    push_str_chars(out, " ");
    push_fnv_canonical(out, m.fnv1a64);
    assert(final(out)@ =~= old(out)@ + measures_human(*m));
}

// ---------------------------------------------------------------------------
// Inventory.
// ---------------------------------------------------------------------------

pub open spec fn inv_snapshot_human(x: StoredSnapshotView) -> Seq<char> {
    let s = x.snapshot;
    "- "@ + s.id + " ["@ + state_name(s.state) + "] "@ + x.path + " "@ + measures_human(s.measures) + "\n"@
        + "  predecessor="@ + opt_human(s.predecessor) + " base="@ + opt_human(s.base_snapshot)
        + " recipes="@ + recipes_human(s.recipes) + "\n"@
}

pub open spec fn inv_error_human(e: ArtifactErrorView) -> Seq<char> {
    "erro "@ + e.path + " ["@ + kind_name(e.kind) + "]: "@ + e.message + "\n"@
}

/// The human inventory: a header, one entry per valid snapshot, one line per
/// structural failure.
pub open spec fn inventory_human(st: StoreView) -> Seq<char> {
    "projeções históricas\n"@ + concat(st.snapshots.map_values(|x: StoredSnapshotView| inv_snapshot_human(x)))
        + concat(st.errors.map_values(|e: ArtifactErrorView| inv_error_human(e)))
}

pub open spec fn inv_snapshot_json(x: StoredSnapshotView) -> Seq<char> {
    let s = x.snapshot;
    "{\"id\":"@ + json_quoted(s.id) + ",\"state\":"@ + json_quoted(state_name(s.state))
        + ",\"predecessor\":"@ + opt_json(s.predecessor) + ",\"base_snapshot\":"@ + opt_json(s.base_snapshot)
        + ",\"recipes\":"@ + strings_json(s.recipes) + ",\"measures\":"@ + measures_json(s.measures)
        + ",\"path\":"@ + json_quoted(x.path) + "}"@
}

pub open spec fn error_json(e: ArtifactErrorView) -> Seq<char> {
    "{\"path\":"@ + json_quoted(e.path) + ",\"kind\":"@ + json_quoted(kind_name(e.kind)) + ",\"message\":"@
        + json_quoted(e.message) + "}"@
}

/// The structural failures as JSON objects separated by commas.
pub open spec fn errors_json(es: Seq<ArtifactErrorView>) -> Seq<char> {
    joined(es.map_values(|e: ArtifactErrorView| error_json(e)))
}

/// The JSON inventory: `MATCH` without structural failure, else
/// `HARNESS_FAILURE`.
pub open spec fn inventory_json(st: StoreView) -> Seq<char> {
    "{\"schema\":"@ + decimal(PROJECTION_CLI_SCHEMA as nat) + ",\"command\":\"listar\",\"outcome\":"@
        + json_quoted(
        if st.errors.len() == 0 {
            "MATCH"@
        } else {
            "HARNESS_FAILURE"@
        },
    ) + ",\"snapshots\":["@ + joined(st.snapshots.map_values(|x: StoredSnapshotView| inv_snapshot_json(x)))
        + "],\"errors\":["@ + errors_json(st.errors) + "]}"@
}

fn push_inv_snapshot_human(out: &mut Vec<char>, x: &StoredSnapshot)
    ensures
        final(out)@ == old(out)@ + inv_snapshot_human(stored_snapshot_view(*x)),
{
    let s = &x.snapshot;
    push_str_chars(out, "- ");
    push_str_chars(out, s.id.as_str());
    push_str_chars(out, " [");
    push_str_chars(out, s.state.as_str());
    push_str_chars(out, "] ");
    push_str_chars(out, x.path.as_str());
    push_str_chars(out, " ");
    push_measures_human(out, &s.measures);
    push_str_chars(out, "\n");
    push_str_chars(out, "  predecessor=");
    push_opt_human(out, &s.predecessor);
    push_str_chars(out, " base=");
    push_opt_human(out, &s.base_snapshot);
    push_str_chars(out, " recipes=");
    push_recipes_human(out, &s.recipes);
    push_str_chars(out, "\n");
    assert(final(out)@ =~= old(out)@ + inv_snapshot_human(stored_snapshot_view(*x)));
}

fn push_inv_snapshot_json(out: &mut Vec<char>, x: &StoredSnapshot)
    ensures
        final(out)@ == old(out)@ + inv_snapshot_json(stored_snapshot_view(*x)),
{
    let s = &x.snapshot;
    push_str_chars(out, "{\"id\":");
    push_json_string(out, s.id.as_str());
    push_str_chars(out, ",\"state\":");
    push_json_string(out, s.state.as_str());
    push_str_chars(out, ",\"predecessor\":");
    push_opt_json(out, &s.predecessor);
    push_str_chars(out, ",\"base_snapshot\":");
    push_opt_json(out, &s.base_snapshot);
    push_str_chars(out, ",\"recipes\":");
    push_strings_json(out, &s.recipes);
    push_str_chars(out, ",\"measures\":");
    push_measures_json(out, &s.measures);
    push_str_chars(out, ",\"path\":");
    push_json_string(out, x.path.as_str());
    push_str_chars(out, "}");
    assert(final(out)@ =~= old(out)@ + inv_snapshot_json(stored_snapshot_view(*x)));
}

fn push_errors_json(out: &mut Vec<char>, es: &Vec<ArtifactError>)
    ensures
        final(out)@ == old(out)@ + errors_json(errors_view(es@)),
{
    let ghost start = out@;
    let ghost parts = errors_view(es@).map_values(|e: ArtifactErrorView| error_json(e));
    let mut i: usize = 0;
    assert(parts.take(0) =~= Seq::<Seq<char>>::empty());
    assert(start + joined(Seq::empty()) =~= start);
    while i < es.len()
        invariant
            i <= es@.len(),
            parts == errors_view(es@).map_values(|e: ArtifactErrorView| error_json(e)),
            out@ == start + joined(parts.take(i as int)),
        decreases es.len() - i,
    {
        proof {
            lemma_joined_push(parts.take(i as int), parts[i as int]);
            assert(parts.take(i + 1) =~= parts.take(i as int).push(parts[i as int]));
        }
        let e = &es[i];
        if i > 0 {
            push_str_chars(out, ",");
        }
        push_str_chars(out, "{\"path\":");
        push_json_string(out, e.path.as_str());
        push_str_chars(out, ",\"kind\":");
        push_json_string(out, e.kind.as_str());
        push_str_chars(out, ",\"message\":");
        push_json_string(out, e.message.as_str());
        push_str_chars(out, "}");
        assert(out@ =~= start + joined(parts.take(i + 1)));
        i = i + 1;
    }
    assert(parts.take(i as int) =~= parts);
}

fn inv_snapshots_human(snaps: &Vec<&StoredSnapshot>) -> (v: Vec<char>)
    ensures
        v@ == concat(snaps@.map_values(|x: &StoredSnapshot| inv_snapshot_human(stored_snapshot_view(*x)))),
{
    let mut v: Vec<char> = Vec::new();
    let ghost parts = snaps@.map_values(|x: &StoredSnapshot| inv_snapshot_human(stored_snapshot_view(*x)));
    let mut i: usize = 0;
    assert(parts.take(0) =~= Seq::<Seq<char>>::empty());
    assert(v@ =~= concat(Seq::empty()));
    while i < snaps.len()
        invariant
            i <= snaps@.len(),
            parts == snaps@.map_values(|x: &StoredSnapshot| inv_snapshot_human(stored_snapshot_view(*x))),
            v@ == concat(parts.take(i as int)),
        decreases snaps.len() - i,
    {
        proof {
            lemma_concat_push(parts.take(i as int), parts[i as int]);
            assert(parts.take(i + 1) =~= parts.take(i as int).push(parts[i as int]));
        }
        push_inv_snapshot_human(&mut v, snaps[i]);
        i = i + 1;
    }
    assert(parts.take(i as int) =~= parts);
    v
}

fn inv_errors_human(es: &Vec<ArtifactError>) -> (v: Vec<char>)
    ensures
        v@ == concat(errors_view(es@).map_values(|e: ArtifactErrorView| inv_error_human(e))),
{
    let mut v: Vec<char> = Vec::new();
    let ghost parts = errors_view(es@).map_values(|e: ArtifactErrorView| inv_error_human(e));
    let mut j: usize = 0;
    assert(parts.take(0) =~= Seq::<Seq<char>>::empty());
    assert(v@ =~= concat(Seq::empty()));
    while j < es.len()
        invariant
            j <= es@.len(),
            parts == errors_view(es@).map_values(|e: ArtifactErrorView| inv_error_human(e)),
            v@ == concat(parts.take(j as int)),
        decreases es.len() - j,
    {
        proof {
            lemma_concat_push(parts.take(j as int), parts[j as int]);
            assert(parts.take(j + 1) =~= parts.take(j as int).push(parts[j as int]));
        }
        let e = &es[j];
        let ghost before = v@;
        push_str_chars(&mut v, "erro ");
        push_str_chars(&mut v, e.path.as_str());
        push_str_chars(&mut v, " [");
        push_str_chars(&mut v, e.kind.as_str());
        push_str_chars(&mut v, "]: ");
        push_str_chars(&mut v, e.message.as_str());
        push_str_chars(&mut v, "\n");
        assert(v@ =~= before + parts[j as int]);
        j = j + 1;
    }
    assert(parts.take(j as int) =~= parts);
    v
}

/// The human inventory of a store.
pub fn render_inventory_human(store: &ProjectionStore) -> (s: String)
    ensures
        s@ == inventory_human(store.view_of()),
{
    let ghost st = store.view_of();
    let snaps = store.snapshots();
    let es = store.errors();
    let a = inv_snapshots_human(&snaps);
    let b = inv_errors_human(es);
    assert(snaps@.map_values(|x: &StoredSnapshot| inv_snapshot_human(stored_snapshot_view(*x)))
        =~= st.snapshots.map_values(|x: StoredSnapshotView| inv_snapshot_human(x)));
    let mut out: Vec<char> = Vec::new();
    push_str_chars(&mut out, "projeções históricas\n");
    assert(out@ =~= "projeções históricas\n"@);
    push_all(&mut out, &a);
    push_all(&mut out, &b);
    assert(out@ == inventory_human(st));
    string_from(&out)
}

fn inv_snapshots_json(snaps: &Vec<&StoredSnapshot>) -> (v: Vec<char>)
    ensures
        v@ == joined(snaps@.map_values(|x: &StoredSnapshot| inv_snapshot_json(stored_snapshot_view(*x)))),
{
    let mut v: Vec<char> = Vec::new();
    let ghost parts = snaps@.map_values(|x: &StoredSnapshot| inv_snapshot_json(stored_snapshot_view(*x)));
    let mut i: usize = 0;
    assert(parts.take(0) =~= Seq::<Seq<char>>::empty());
    assert(v@ =~= joined(Seq::empty()));
    while i < snaps.len()
        invariant
            i <= snaps@.len(),
            parts == snaps@.map_values(|x: &StoredSnapshot| inv_snapshot_json(stored_snapshot_view(*x))),
            v@ == joined(parts.take(i as int)),
        decreases snaps.len() - i,
    {
        proof {
            lemma_joined_push(parts.take(i as int), parts[i as int]);
            assert(parts.take(i + 1) =~= parts.take(i as int).push(parts[i as int]));
        }
        if i > 0 {
            push_str_chars(&mut v, ",");
        }
        push_inv_snapshot_json(&mut v, snaps[i]);
        i = i + 1;
    }
    assert(parts.take(i as int) =~= parts);
    v
}

/// The JSON inventory of a store.
pub fn render_inventory_json(store: &ProjectionStore) -> (s: String)
    ensures
        s@ == inventory_json(store.view_of()),
{
    let ghost st = store.view_of();
    let snaps = store.snapshots();
    let es = store.errors();
    let items = inv_snapshots_json(&snaps);
    assert(snaps@.map_values(|x: &StoredSnapshot| inv_snapshot_json(stored_snapshot_view(*x)))
        =~= st.snapshots.map_values(|x: StoredSnapshotView| inv_snapshot_json(x)));
    let mut errs: Vec<char> = Vec::new();
    push_errors_json(&mut errs, es);
    assert(errs@ =~= errors_json(st.errors));
    let mut out: Vec<char> = Vec::new();
    push_str_chars(&mut out, "{\"schema\":");
    assert(out@ =~= "{\"schema\":"@);
    push_decimal(&mut out, PROJECTION_CLI_SCHEMA);
    push_str_chars(&mut out, ",\"command\":\"listar\",\"outcome\":");
    push_json_string(&mut out, if es.len() == 0 { "MATCH" } else { "HARNESS_FAILURE" });
    push_str_chars(&mut out, ",\"snapshots\":[");
    push_all(&mut out, &items);
    push_str_chars(&mut out, "],\"errors\":[");
    push_all(&mut out, &errs);
    push_str_chars(&mut out, "]}");
    assert(out@ == inventory_json(st));
    string_from(&out)
}

// ---------------------------------------------------------------------------
// Definition against observation.
// ---------------------------------------------------------------------------

pub open spec fn rule_human(r: RuleView) -> Seq<char> {
    "rule: "@ + rule_op(r) + " "@ + rule_selector(r) + " expected_matches="@ + decimal(rule_expected(r) as nat)
        + "\n"@
}

/// The third budget, shown only when there is one.
pub open spec fn materializations_human(s: SnapshotView) -> Seq<char> {
    if s.expected_materializations > 0 {
        "expected_materializations: "@ + decimal(s.expected_materializations as nat) + "\n"@
    } else {
        Seq::empty()
    }
}

/// `name: value` on a line of its own.
pub open spec fn field_line(name: Seq<char>, v: Seq<char>) -> Seq<char> {
    name + ": "@ + v + "\n"@
}

/// The identity of a snapshot definition, one field per line.
pub open spec fn identity_human(s: SnapshotView) -> Seq<char> {
    field_line("artifact_schema"@, decimal(s.schema as nat)) + field_line("id"@, s.id) + field_line(
        "state"@,
        state_name(s.state),
    ) + field_line("predecessor"@, opt_human(s.predecessor)) + field_line(
        "justification"@,
        opt_human(s.justification),
    )
}

/// The composition and budgets of a snapshot definition.
pub open spec fn composition_human(s: SnapshotView) -> Seq<char> {
    field_line("base_snapshot"@, opt_human(s.base_snapshot)) + field_line("recipes"@, recipes_human(s.recipes))
        + field_line("expected_overrides"@, decimal(s.expected_overrides as nat)) + field_line(
        "expected_exclusions"@,
        decimal(s.expected_exclusions as nat),
    ) + materializations_human(s)
}

pub open spec fn rules_human(rs: Seq<RuleView>) -> Seq<char> {
    concat(rs.map_values(|r: RuleView| rule_human(r)))
}

/// Every field of a snapshot definition, one per line, then its rules.
pub open spec fn definition_human(s: SnapshotView, path: Seq<char>) -> Seq<char> {
    identity_human(s) + composition_human(s) + field_line("measures"@, measures_human(s.measures)) + field_line(
        "path"@,
        path,
    ) + rules_human(s.rules)
}

pub open spec fn hash_extra_json(
    from: Seq<char>,
    to: Seq<char>,
    expect_file: Option<Seq<char>>,
    expect_domain: Option<Seq<char>>,
    expect_layer: Option<Seq<char>>,
) -> Seq<char> {
    ",\"from\":"@ + json_quoted(from) + ",\"to\":"@ + json_quoted(to) + expect_json(
        expect_file,
        expect_domain,
        expect_layer,
    )
}

pub open spec fn expect_json(
    expect_file: Option<Seq<char>>,
    expect_domain: Option<Seq<char>>,
    expect_layer: Option<Seq<char>>,
) -> Seq<char> {
    ",\"expect_file\":"@ + opt_json(expect_file) + ",\"expect_domain\":"@ + opt_json(expect_domain)
        + ",\"expect_layer\":"@ + opt_json(expect_layer)
}

pub open spec fn region_extra_json(
    from_hash: Option<Seq<char>>,
    to_hash: Option<Seq<char>>,
    from_summary: Option<Seq<char>>,
    to_summary: Option<Seq<char>>,
    expect_file: Option<Seq<char>>,
    to_file: Option<Seq<char>>,
    expect_domain: Option<Seq<char>>,
    expect_layer: Option<Seq<char>>,
) -> Seq<char> {
    ",\"from_hash\":"@ + opt_json(from_hash) + ",\"to_hash\":"@ + opt_json(to_hash) + ",\"from_summary\":"@
        + opt_json(from_summary) + ",\"to_summary\":"@ + opt_json(to_summary) + ",\"expect_file\":"@ + opt_json(
        expect_file,
    ) + ",\"to_file\":"@ + opt_json(to_file) + ",\"expect_domain\":"@ + opt_json(expect_domain)
        + ",\"expect_layer\":"@ + opt_json(expect_layer)
}

/// The fields that only the hash and region overrides carry.
pub open spec fn rule_extra_json(r: RuleView) -> Seq<char> {
    match r {
        RuleView::OverrideHash { from, to, expect_file, expect_domain, expect_layer, .. } => hash_extra_json(
            from,
            to,
            expect_file,
            expect_domain,
            expect_layer,
        ),
        RuleView::OverrideRegion {
            from_hash,
            to_hash,
            from_summary,
            to_summary,
            expect_file,
            to_file,
            expect_domain,
            expect_layer,
            ..
        } => region_extra_json(
            from_hash,
            to_hash,
            from_summary,
            to_summary,
            expect_file,
            to_file,
            expect_domain,
            expect_layer,
        ),
        _ => Seq::empty(),
    }
}

pub open spec fn rule_json(r: RuleView) -> Seq<char> {
    "{\"op\":"@ + json_quoted(rule_op(r)) + ",\"selector\":"@ + json_quoted(rule_selector(r))
        + ",\"expected_matches\":"@ + decimal(rule_expected(r) as nat) + rule_extra_json(r) + "}"@
}

pub open spec fn materializations_json(s: SnapshotView) -> Seq<char> {
    if s.expected_materializations > 0 {
        ",\"expected_materializations\":"@ + decimal(s.expected_materializations as nat)
    } else {
        Seq::empty()
    }
}

pub open spec fn identity_json(s: SnapshotView) -> Seq<char> {
    "{\"artifact_schema\":"@ + decimal(s.schema as nat) + ",\"id\":"@ + json_quoted(s.id) + ",\"state\":"@
        + json_quoted(state_name(s.state)) + ",\"predecessor\":"@ + opt_json(s.predecessor)
        + ",\"justification\":"@ + opt_json(s.justification)
}

pub open spec fn composition_json(s: SnapshotView) -> Seq<char> {
    ",\"base_snapshot\":"@ + opt_json(s.base_snapshot) + ",\"recipes\":"@ + strings_json(s.recipes)
        + ",\"expected_overrides\":"@ + decimal(s.expected_overrides as nat) + ",\"expected_exclusions\":"@
        + decimal(s.expected_exclusions as nat) + materializations_json(s)
}

pub open spec fn rules_json(rs: Seq<RuleView>) -> Seq<char> {
    joined(rs.map_values(|r: RuleView| rule_json(r)))
}

pub open spec fn definition_json(s: SnapshotView, path: Seq<char>) -> Seq<char> {
    identity_json(s) + composition_json(s) + ",\"rules\":["@ + rules_json(s.rules) + "],\"measures\":"@
        + measures_json(s.measures) + ",\"path\":"@ + json_quoted(path) + "}"@
}

pub open spec fn observed_human(o: Option<Measures>) -> Seq<char> {
    match o {
        Some(m) => "observado: "@ + measures_human(m) + "\n"@,
        None => "observado: —\n"@,
    }
}

pub open spec fn failure_human(o: Outcome) -> Seq<char> {
    match o {
        Outcome::HarnessFailure(f) => "falha: "@ + failure_code(f) + " "@ + failure_message(f) + "\n"@,
        _ => Seq::empty(),
    }
}

/// A verification report for humans: identity and outcome, expected and
/// observed measures, and the failure when the harness failed.
pub open spec fn verification_human(r: VerifyReport) -> Seq<char> {
    "id="@ + r.snapshot_id@ + " state="@ + state_name(r.state) + " outcome="@ + outcome_name(r.outcome) + "\n"@
        + "esperado: "@ + measures_human(r.expected) + "\n"@ + observed_human(r.observed) + failure_human(
        r.outcome,
    )
}

pub open spec fn observed_json(o: Option<Measures>) -> Seq<char> {
    match o {
        Some(m) => measures_json(m),
        None => "null"@,
    }
}

pub open spec fn drift_json(o: Outcome) -> Seq<char> {
    match o {
        Outcome::Drift(ds) => divergences_json(divergences_view(ds@)),
        _ => Seq::empty(),
    }
}

pub open spec fn failure_json(o: Outcome) -> Seq<char> {
    match o {
        Outcome::HarnessFailure(f) => "{\"code\":"@ + json_quoted(failure_code(f)) + ",\"message\":"@
            + json_quoted(one_line(failure_message(f))) + "}"@,
        _ => "null"@,
    }
}

pub open spec fn verification_json(r: VerifyReport) -> Seq<char> {
    "{\"snapshot\":"@ + json_quoted(r.snapshot_id@) + ",\"state\":"@ + json_quoted(state_name(r.state))
        + ",\"outcome\":"@ + json_quoted(outcome_name(r.outcome)) + ",\"expected\":"@ + measures_json(r.expected)
        + ",\"observed\":"@ + observed_json(r.observed) + ",\"divergences\":["@ + drift_json(r.outcome)
        + "],\"failure\":"@ + failure_json(r.outcome) + "}"@
}

fn push_field_line_start(out: &mut Vec<char>, name: &str)
    ensures
        final(out)@ == old(out)@ + name@ + ": "@,
{
    push_str_chars(out, name);
    push_str_chars(out, ": ");
}

fn push_expect_json(
    out: &mut Vec<char>,
    expect_file: &Option<String>,
    expect_domain: &Option<String>,
    expect_layer: &Option<String>,
)
    ensures
        final(out)@ == old(out)@ + expect_json(opt_view(*expect_file), opt_view(*expect_domain), opt_view(*expect_layer)),
{
    push_str_chars(out, ",\"expect_file\":");
    push_opt_json(out, expect_file);
    push_str_chars(out, ",\"expect_domain\":");
    push_opt_json(out, expect_domain);
    push_str_chars(out, ",\"expect_layer\":");
    push_opt_json(out, expect_layer);
    assert(final(out)@ =~= old(out)@ + expect_json(opt_view(*expect_file), opt_view(*expect_domain), opt_view(*expect_layer)));
}

fn push_rule_extra_json(out: &mut Vec<char>, r: &Rule)
    ensures
        final(out)@ == old(out)@ + rule_extra_json(rule_view(*r)),
{
    let mut v: Vec<char> = Vec::new();
    match r {
        Rule::OverrideHash { from, to, expect_file, expect_domain, expect_layer, .. } => {
            push_str_chars(&mut v, ",\"from\":");
            assert(v@ =~= ",\"from\":"@);
            push_json_string(&mut v, from.as_str());
            push_str_chars(&mut v, ",\"to\":");
            push_json_string(&mut v, to.as_str());
            push_expect_json(&mut v, expect_file, expect_domain, expect_layer);
        },
        Rule::OverrideRegion {
            from_hash,
            to_hash,
            from_summary,
            to_summary,
            expect_file,
            to_file,
            expect_domain,
            expect_layer,
            ..
        } => {
            push_str_chars(&mut v, ",\"from_hash\":");
            assert(v@ =~= ",\"from_hash\":"@);
            push_opt_json(&mut v, from_hash);
            push_str_chars(&mut v, ",\"to_hash\":");
            push_opt_json(&mut v, to_hash);
            push_str_chars(&mut v, ",\"from_summary\":");
            push_opt_json(&mut v, from_summary);
            push_str_chars(&mut v, ",\"to_summary\":");
            push_opt_json(&mut v, to_summary);
            push_str_chars(&mut v, ",\"expect_file\":");
            push_opt_json(&mut v, expect_file);
            push_str_chars(&mut v, ",\"to_file\":");
            push_opt_json(&mut v, to_file);
            push_str_chars(&mut v, ",\"expect_domain\":");
            push_opt_json(&mut v, expect_domain);
            push_str_chars(&mut v, ",\"expect_layer\":");
            push_opt_json(&mut v, expect_layer);
        },
        _ => {},
    }
    assert(v@ == rule_extra_json(rule_view(*r)));
    push_all(out, &v);
}

fn push_rule_json(out: &mut Vec<char>, r: &Rule)
    ensures
        final(out)@ == old(out)@ + rule_json(rule_view(*r)),
{
    push_str_chars(out, "{\"op\":");
    push_json_string(out, r.op());
    push_str_chars(out, ",\"selector\":");
    push_json_string(out, r.selector());
    push_str_chars(out, ",\"expected_matches\":");
    push_decimal(out, r.expected_matches());
    push_rule_extra_json(out, r);
    push_str_chars(out, "}");
    assert(final(out)@ =~= old(out)@ + rule_json(rule_view(*r)));
}

fn push_field_line(out: &mut Vec<char>, name: &str, value: &Vec<char>)
    ensures
        final(out)@ == old(out)@ + field_line(name@, value@),
{
    push_str_chars(out, name);
    push_str_chars(out, ": ");
    push_all(out, value);
    push_str_chars(out, "\n");
    assert(final(out)@ =~= old(out)@ + field_line(name@, value@));
}

fn decimal_chars(n: u64) -> (v: Vec<char>)
    ensures
        v@ == decimal(n as nat),
{
    let mut v: Vec<char> = Vec::new();
    push_decimal(&mut v, n);
    assert(v@ =~= decimal(n as nat));
    v
}

fn opt_human_chars(o: &Option<String>) -> (v: Vec<char>)
    ensures
        v@ == opt_human(opt_view(*o)),
{
    let mut v: Vec<char> = Vec::new();
    push_opt_human(&mut v, o);
    assert(v@ =~= opt_human(opt_view(*o)));
    v
}

fn push_identity_human(out: &mut Vec<char>, s: &ProjectionSnapshot)
    ensures
        final(out)@ == old(out)@ + identity_human(snapshot_view(*s)),
{
    let mut v: Vec<char> = Vec::new();
    push_field_line(&mut v, "artifact_schema", &decimal_chars(s.schema));
    assert(v@ =~= field_line("artifact_schema"@, decimal(s.schema as nat)));
    push_field_line(&mut v, "id", &chars_of(s.id.as_str()));
    push_field_line(&mut v, "state", &chars_of(s.state.as_str()));
    push_field_line(&mut v, "predecessor", &opt_human_chars(&s.predecessor));
    push_field_line(&mut v, "justification", &opt_human_chars(&s.justification));
    assert(v@ == identity_human(snapshot_view(*s)));
    push_all(out, &v);
}

fn push_composition_human(out: &mut Vec<char>, s: &ProjectionSnapshot)
    ensures
        final(out)@ == old(out)@ + composition_human(snapshot_view(*s)),
{
    let mut v: Vec<char> = Vec::new();
    push_field_line(&mut v, "base_snapshot", &opt_human_chars(&s.base_snapshot));
    assert(v@ =~= field_line("base_snapshot"@, opt_human(opt_view(s.base_snapshot))));
    let mut recipes: Vec<char> = Vec::new();
    push_recipes_human(&mut recipes, &s.recipes);
    assert(recipes@ =~= recipes_human(string_rows(s.recipes@)));
    push_field_line(&mut v, "recipes", &recipes);
    push_field_line(&mut v, "expected_overrides", &decimal_chars(s.expected_overrides));
    push_field_line(&mut v, "expected_exclusions", &decimal_chars(s.expected_exclusions));
    let mut m: Vec<char> = Vec::new();
    if s.expected_materializations > 0 {
        push_str_chars(&mut m, "expected_materializations: ");
        push_decimal(&mut m, s.expected_materializations);
        push_str_chars(&mut m, "\n");
    }
    assert(m@ =~= materializations_human(snapshot_view(*s)));
    push_all(&mut v, &m);
    assert(v@ == composition_human(snapshot_view(*s)));
    push_all(out, &v);
}

fn push_rules_human(out: &mut Vec<char>, rules: &Vec<Rule>)
    ensures
        final(out)@ == old(out)@ + rules_human(rules_view(rules@)),
{
    let ghost start = out@;
    let ghost parts = rules_view(rules@).map_values(|r: RuleView| rule_human(r));
    let mut i: usize = 0;
    assert(parts.take(0) =~= Seq::<Seq<char>>::empty());
    assert(start + concat(Seq::empty()) =~= start);
    while i < rules.len()
        invariant
            i <= rules@.len(),
            parts == rules_view(rules@).map_values(|r: RuleView| rule_human(r)),
            out@ == start + concat(parts.take(i as int)),
        decreases rules.len() - i,
    {
        proof {
            lemma_concat_push(parts.take(i as int), parts[i as int]);
            assert(parts.take(i + 1) =~= parts.take(i as int).push(parts[i as int]));
        }
        let r = &rules[i];
        push_str_chars(out, "rule: ");
        push_str_chars(out, r.op());
        push_str_chars(out, " ");
        push_str_chars(out, r.selector());
        push_str_chars(out, " expected_matches=");
        push_decimal(out, r.expected_matches());
        push_str_chars(out, "\n");
        assert(out@ =~= start + concat(parts.take(i + 1)));
        i = i + 1;
    }
    assert(parts.take(i as int) =~= parts);
}

fn push_definition_human(out: &mut Vec<char>, s: &ProjectionSnapshot, path: &str)
    ensures
        final(out)@ == old(out)@ + definition_human(snapshot_view(*s), path@),
{
    push_identity_human(out, s);
    push_composition_human(out, s);
    push_field_line_start(out, "measures");
    push_measures_human(out, &s.measures);
    push_str_chars(out, "\n");
    push_field_line_start(out, "path");
    push_str_chars(out, path);
    push_str_chars(out, "\n");
    push_rules_human(out, &s.rules);
    assert(final(out)@ =~= old(out)@ + definition_human(snapshot_view(*s), path@));
}

fn push_identity_json(out: &mut Vec<char>, s: &ProjectionSnapshot)
    ensures
        final(out)@ == old(out)@ + identity_json(snapshot_view(*s)),
{
    let mut v: Vec<char> = Vec::new();
    push_str_chars(&mut v, "{\"artifact_schema\":");
    assert(v@ =~= "{\"artifact_schema\":"@);
    push_decimal(&mut v, s.schema);
    push_str_chars(&mut v, ",\"id\":");
    push_json_string(&mut v, s.id.as_str());
    push_str_chars(&mut v, ",\"state\":");
    push_json_string(&mut v, s.state.as_str());
    push_str_chars(&mut v, ",\"predecessor\":");
    push_opt_json(&mut v, &s.predecessor);
    push_str_chars(&mut v, ",\"justification\":");
    push_opt_json(&mut v, &s.justification);
    assert(v@ == identity_json(snapshot_view(*s)));
    push_all(out, &v);
}

fn push_composition_json(out: &mut Vec<char>, s: &ProjectionSnapshot)
    ensures
        final(out)@ == old(out)@ + composition_json(snapshot_view(*s)),
{
    let mut v: Vec<char> = Vec::new();
    push_str_chars(&mut v, ",\"base_snapshot\":");
    assert(v@ =~= ",\"base_snapshot\":"@);
    push_opt_json(&mut v, &s.base_snapshot);
    push_str_chars(&mut v, ",\"recipes\":");
    push_strings_json(&mut v, &s.recipes);
    push_str_chars(&mut v, ",\"expected_overrides\":");
    push_decimal(&mut v, s.expected_overrides);
    push_str_chars(&mut v, ",\"expected_exclusions\":");
    push_decimal(&mut v, s.expected_exclusions);
    let mut m: Vec<char> = Vec::new();
    if s.expected_materializations > 0 {
        push_str_chars(&mut m, ",\"expected_materializations\":");
        push_decimal(&mut m, s.expected_materializations);
    }
    assert(m@ =~= materializations_json(snapshot_view(*s)));
    push_all(&mut v, &m);
    assert(v@ == composition_json(snapshot_view(*s)));
    push_all(out, &v);
}

fn push_rules_json(out: &mut Vec<char>, rules: &Vec<Rule>)
    ensures
        final(out)@ == old(out)@ + rules_json(rules_view(rules@)),
{
    let ghost start = out@;
    let ghost parts = rules_view(rules@).map_values(|r: RuleView| rule_json(r));
    let mut i: usize = 0;
    assert(parts.take(0) =~= Seq::<Seq<char>>::empty());
    assert(start + joined(Seq::empty()) =~= start);
    while i < rules.len()
        invariant
            i <= rules@.len(),
            parts == rules_view(rules@).map_values(|r: RuleView| rule_json(r)),
            out@ == start + joined(parts.take(i as int)),
        decreases rules.len() - i,
    {
        proof {
            lemma_joined_push(parts.take(i as int), parts[i as int]);
            assert(parts.take(i + 1) =~= parts.take(i as int).push(parts[i as int]));
        }
        if i > 0 {
            push_str_chars(out, ",");
        }
        push_rule_json(out, &rules[i]);
        assert(out@ =~= start + joined(parts.take(i + 1)));
        i = i + 1;
    }
    assert(parts.take(i as int) =~= parts);
}

fn push_definition_json(out: &mut Vec<char>, s: &ProjectionSnapshot, path: &str)
    ensures
        final(out)@ == old(out)@ + definition_json(snapshot_view(*s), path@),
{
    let mut v: Vec<char> = Vec::new();
    push_identity_json(&mut v, s);
    assert(v@ =~= identity_json(snapshot_view(*s)));
    push_composition_json(&mut v, s);
    push_str_chars(&mut v, ",\"rules\":[");
    push_rules_json(&mut v, &s.rules);
    push_str_chars(&mut v, "],\"measures\":");
    push_measures_json(&mut v, &s.measures);
    push_str_chars(&mut v, ",\"path\":");
    push_json_string(&mut v, path);
    push_str_chars(&mut v, "}");
    assert(v@ == definition_json(snapshot_view(*s), path@));
    push_all(out, &v);
}

fn push_observed_human(out: &mut Vec<char>, o: &Option<Measures>)
    ensures
        final(out)@ == old(out)@ + observed_human(*o),
{
    match o {
        Some(m) => {
            push_str_chars(out, "observado: ");
            push_measures_human(out, m);
            push_str_chars(out, "\n");
        },
        None => push_str_chars(out, "observado: —\n"),
    }
    assert(final(out)@ =~= old(out)@ + observed_human(*o));
}

fn push_failure_human(out: &mut Vec<char>, o: &Outcome)
    ensures
        final(out)@ == old(out)@ + failure_human(*o),
{
    match o {
        Outcome::HarnessFailure(f) => {
            push_str_chars(out, "falha: ");
            push_str_chars(out, f.code());
            push_str_chars(out, " ");
            let m = f.message();
            push_str_chars(out, m.as_str());
            push_str_chars(out, "\n");
        },
        _ => {},
    }
    assert(final(out)@ =~= old(out)@ + failure_human(*o));
}

fn push_verification_human(out: &mut Vec<char>, r: &VerifyReport)
    ensures
        final(out)@ == old(out)@ + verification_human(*r),
{
    push_str_chars(out, "id=");
    push_str_chars(out, r.snapshot_id.as_str());
    push_str_chars(out, " state=");
    push_str_chars(out, r.state.as_str());
    push_str_chars(out, " outcome=");
    push_str_chars(out, r.outcome.as_str());
    push_str_chars(out, "\n");
    push_str_chars(out, "esperado: ");
    push_measures_human(out, &r.expected);
    push_str_chars(out, "\n");
    push_observed_human(out, &r.observed);
    push_failure_human(out, &r.outcome);
    assert(final(out)@ =~= old(out)@ + verification_human(*r));
}

fn push_divergences_json(out: &mut Vec<char>, ds: &Vec<Divergence>)
    ensures
        final(out)@ == old(out)@ + divergences_json(divergences_view(ds@)),
{
    let ghost c = out@;
    let ghost dv = divergences_view(ds@);
    let mut i: usize = 0;
    assert(dv.take(0) =~= Seq::<DivergenceView>::empty());
    assert(c + divergences_json(Seq::empty()) =~= c);
    while i < ds.len()
        invariant
            i <= ds@.len(),
            dv == divergences_view(ds@),
            out@ == c + divergences_json(dv.take(i as int)),
        decreases ds.len() - i,
    {
        assert(dv.take(i + 1).drop_last() =~= dv.take(i as int));
        assert(dv.take(i + 1).last() == divergence_view(ds@[i as int]));
        if i > 0 {
            push_str_chars(out, ",");
        }
        push_str_chars(out, "{\"measure\":");
        push_json_string(out, ds[i].measure);
        push_str_chars(out, ",\"expected\":");
        push_json_string(out, ds[i].expected.as_str());
        push_str_chars(out, ",\"observed\":");
        push_json_string(out, ds[i].observed.as_str());
        push_str_chars(out, "}");
        assert(out@ =~= c + divergences_json(dv.take(i + 1)));
        i = i + 1;
    }
    assert(dv.take(i as int) =~= dv);
}

fn push_observed_json(out: &mut Vec<char>, o: &Option<Measures>)
    ensures
        final(out)@ == old(out)@ + observed_json(*o),
{
    match o {
        Some(m) => push_measures_json(out, m),
        None => push_str_chars(out, "null"),
    }
}

fn push_drift_json(out: &mut Vec<char>, o: &Outcome)
    ensures
        final(out)@ == old(out)@ + drift_json(*o),
{
    match o {
        Outcome::Drift(ds) => push_divergences_json(out, ds),
        _ => {
            assert(final(out)@ =~= old(out)@ + drift_json(*o));
        },
    }
}

fn push_failure_json(out: &mut Vec<char>, o: &Outcome)
    ensures
        final(out)@ == old(out)@ + failure_json(*o),
{
    match o {
        Outcome::HarnessFailure(f) => {
            push_str_chars(out, "{\"code\":");
            push_json_string(out, f.code());
            push_str_chars(out, ",\"message\":");
            let m = one_line_exec(&f.message());
            push_json_string(out, m.as_str());
            push_str_chars(out, "}");
            assert(final(out)@ =~= old(out)@ + failure_json(*o));
        },
        _ => push_str_chars(out, "null"),
    }
}

fn push_verification_json(out: &mut Vec<char>, r: &VerifyReport)
    ensures
        final(out)@ == old(out)@ + verification_json(*r),
{
    let mut v: Vec<char> = Vec::new();
    push_str_chars(&mut v, "{\"snapshot\":");
    assert(v@ =~= "{\"snapshot\":"@);
    push_json_string(&mut v, r.snapshot_id.as_str());
    push_str_chars(&mut v, ",\"state\":");
    push_json_string(&mut v, r.state.as_str());
    push_str_chars(&mut v, ",\"outcome\":");
    push_json_string(&mut v, r.outcome.as_str());
    push_str_chars(&mut v, ",\"expected\":");
    push_measures_json(&mut v, &r.expected);
    push_str_chars(&mut v, ",\"observed\":");
    push_observed_json(&mut v, &r.observed);
    push_str_chars(&mut v, ",\"divergences\":[");
    push_drift_json(&mut v, &r.outcome);
    push_str_chars(&mut v, "],\"failure\":");
    push_failure_json(&mut v, &r.outcome);
    push_str_chars(&mut v, "}");
    assert(v@ == verification_json(*r));
    push_all(out, &v);
}

/// The definition of a stored snapshot, then its observation when given.
pub open spec fn show_human(stored: StoredSnapshotView, observed: Option<VerifyReport>) -> Seq<char> {
    "definicao\n"@ + definition_human(stored.snapshot, stored.path) + match observed {
        Some(r) => "observado\n"@ + verification_human(r),
        None => Seq::empty(),
    }
}

pub open spec fn show_json(stored: StoredSnapshotView, observed: Option<VerifyReport>) -> Seq<char> {
    "{\"schema\":"@ + decimal(PROJECTION_CLI_SCHEMA as nat) + ",\"command\":\"mostrar\",\"definicao\":"@
        + definition_json(stored.snapshot, stored.path) + ",\"observado\":"@ + (match observed {
        Some(r) => verification_json(r),
        None => "null"@,
    }) + "}"@
}

pub open spec fn deref_report(o: Option<&VerifyReport>) -> Option<VerifyReport> {
    match o {
        Some(r) => Some(*r),
        None => None,
    }
}

pub fn render_show_human(stored: &StoredSnapshot, observed: Option<&VerifyReport>) -> (s: String)
    ensures
        s@ == show_human(stored_snapshot_view(*stored), deref_report(observed)),
{
    let mut out: Vec<char> = Vec::new();
    push_str_chars(&mut out, "definicao\n");
    push_definition_human(&mut out, &stored.snapshot, stored.path.as_str());
    let ghost a = out@;
    match observed {
        Some(r) => {
            push_str_chars(&mut out, "observado\n");
            push_verification_human(&mut out, r);
        },
        None => {},
    }
    assert(out@ =~= show_human(stored_snapshot_view(*stored), deref_report(observed)));
    string_from(&out)
}

pub fn render_show_json(stored: &StoredSnapshot, observed: Option<&VerifyReport>) -> (s: String)
    ensures
        s@ == show_json(stored_snapshot_view(*stored), deref_report(observed)),
{
    let mut out: Vec<char> = Vec::new();
    push_str_chars(&mut out, "{\"schema\":");
    push_decimal(&mut out, PROJECTION_CLI_SCHEMA);
    push_str_chars(&mut out, ",\"command\":\"mostrar\",\"definicao\":");
    push_definition_json(&mut out, &stored.snapshot, stored.path.as_str());
    push_str_chars(&mut out, ",\"observado\":");
    let ghost a = out@;
    match observed {
        Some(r) => push_verification_json(&mut out, r),
        None => push_str_chars(&mut out, "null"),
    }
    assert(out@ =~= a + (match deref_report(observed) {
        Some(r) => verification_json(r),
        None => "null"@,
    }));
    push_str_chars(&mut out, "}");
    assert(out@ =~= show_json(stored_snapshot_view(*stored), deref_report(observed)));
    string_from(&out)
}


// ---------------------------------------------------------------------------
// Composed verification of a batch.
// ---------------------------------------------------------------------------

pub open spec fn result_human(it: VerificationItem) -> Seq<char> {
    it.path@ + " "@ + outcome_name(it.report.outcome) + "\n"@ + verification_human(it.report)
}

pub open spec fn blocked_human(b: BlockedView) -> Seq<char> {
    "  bloqueado "@ + b.snapshot + " "@ + b.path + ": "@ + b.reason + "\n"@
}

pub open spec fn group_human(g: CauseGroup) -> Seq<char> {
    "causa "@ + g.cause@ + "\n"@ + concat(g.blocked@.map_values(|x: BlockedItem| blocked_human(blocked_view(x))))
}

pub open spec fn error_line(e: ArtifactErrorView) -> Seq<char> {
    "erro "@ + e.path + ": "@ + e.message + "\n"@
}

/// The human report of a batch: its outcome, each result, each root cause
/// with the snapshots it blocked, each structural failure.
pub open spec fn batch_human(b: VerificationBatch) -> Seq<char> {
    "verificar: "@ + batch_outcome(b) + "\n"@ + concat(b.results@.map_values(|it: VerificationItem| result_human(it)))
        + concat(b.causes@.map_values(|g: CauseGroup| group_human(g))) + concat(
        errors_view(b.errors@).map_values(|e: ArtifactErrorView| error_line(e)),
    )
}

pub open spec fn result_json(it: VerificationItem) -> Seq<char> {
    "{\"path\":"@ + json_quoted(it.path@) + ",\"verification\":"@ + verification_json(it.report) + "}"@
}

pub open spec fn blocked_json(b: BlockedView) -> Seq<char> {
    "{\"snapshot\":"@ + json_quoted(b.snapshot) + ",\"path\":"@ + json_quoted(b.path) + ",\"reason\":"@
        + json_quoted(b.reason) + "}"@
}

pub open spec fn group_json(g: CauseGroup) -> Seq<char> {
    "{\"cause\":"@ + json_quoted(g.cause@) + ",\"blocked\":["@ + joined(
        g.blocked@.map_values(|x: BlockedItem| blocked_json(blocked_view(x))),
    ) + "]}"@
}

pub open spec fn batch_json(b: VerificationBatch) -> Seq<char> {
    "{\"schema\":"@ + decimal(PROJECTION_CLI_SCHEMA as nat) + ",\"command\":\"verificar\",\"outcome\":"@
        + json_quoted(batch_outcome(b)) + ",\"results\":["@ + joined(
        b.results@.map_values(|it: VerificationItem| result_json(it)),
    ) + "],\"causes\":["@ + joined(b.causes@.map_values(|g: CauseGroup| group_json(g)))
        + "],\"errors\":["@ + errors_json(errors_view(b.errors@)) + "]}"@
}

fn push_group_human(out: &mut Vec<char>, g: &CauseGroup)
    ensures
        final(out)@ == old(out)@ + group_human(*g),
{
    let mut v: Vec<char> = Vec::new();
    push_str_chars(&mut v, "causa ");
    assert(v@ =~= "causa "@);
    push_str_chars(&mut v, g.cause.as_str());
    push_str_chars(&mut v, "\n");
    let mut body: Vec<char> = Vec::new();
    let ghost parts = g.blocked@.map_values(|x: BlockedItem| blocked_human(blocked_view(x)));
    let mut i: usize = 0;
    assert(parts.take(0) =~= Seq::<Seq<char>>::empty());
    assert(body@ =~= concat(Seq::empty()));
    while i < g.blocked.len()
        invariant
            i <= g.blocked@.len(),
            parts == g.blocked@.map_values(|x: BlockedItem| blocked_human(blocked_view(x))),
            body@ == concat(parts.take(i as int)),
        decreases g.blocked.len() - i,
    {
        proof {
            lemma_concat_push(parts.take(i as int), parts[i as int]);
            assert(parts.take(i + 1) =~= parts.take(i as int).push(parts[i as int]));
        }
        let b = &g.blocked[i];
        let ghost before = body@;
        push_str_chars(&mut body, "  bloqueado ");
        push_str_chars(&mut body, b.snapshot.as_str());
        push_str_chars(&mut body, " ");
        push_str_chars(&mut body, b.path.as_str());
        push_str_chars(&mut body, ": ");
        push_str_chars(&mut body, b.reason.as_str());
        push_str_chars(&mut body, "\n");
        assert(body@ =~= before + parts[i as int]);
        i = i + 1;
    }
    assert(parts.take(i as int) =~= parts);
    push_all(&mut v, &body);
    assert(v@ == group_human(*g));
    push_all(out, &v);
}

fn push_group_json(out: &mut Vec<char>, g: &CauseGroup)
    ensures
        final(out)@ == old(out)@ + group_json(*g),
{
    let mut v: Vec<char> = Vec::new();
    push_str_chars(&mut v, "{\"cause\":");
    assert(v@ =~= "{\"cause\":"@);
    push_json_string(&mut v, g.cause.as_str());
    push_str_chars(&mut v, ",\"blocked\":[");
    let mut body: Vec<char> = Vec::new();
    let ghost parts = g.blocked@.map_values(|x: BlockedItem| blocked_json(blocked_view(x)));
    let mut i: usize = 0;
    assert(parts.take(0) =~= Seq::<Seq<char>>::empty());
    assert(body@ =~= joined(Seq::empty()));
    while i < g.blocked.len()
        invariant
            i <= g.blocked@.len(),
            parts == g.blocked@.map_values(|x: BlockedItem| blocked_json(blocked_view(x))),
            body@ == joined(parts.take(i as int)),
        decreases g.blocked.len() - i,
    {
        proof {
            lemma_joined_push(parts.take(i as int), parts[i as int]);
            assert(parts.take(i + 1) =~= parts.take(i as int).push(parts[i as int]));
        }
        let b = &g.blocked[i];
        let ghost before = body@;
        if i > 0 {
            push_str_chars(&mut body, ",");
        }
        let ghost sep = body@;
        push_str_chars(&mut body, "{\"snapshot\":");
        push_json_string(&mut body, b.snapshot.as_str());
        push_str_chars(&mut body, ",\"path\":");
        push_json_string(&mut body, b.path.as_str());
        push_str_chars(&mut body, ",\"reason\":");
        push_json_string(&mut body, b.reason.as_str());
        push_str_chars(&mut body, "}");
        assert(body@ =~= sep + parts[i as int]);
        assert(body@ =~= joined(parts.take(i + 1)));
        i = i + 1;
    }
    assert(parts.take(i as int) =~= parts);
    push_all(&mut v, &body);
    push_str_chars(&mut v, "]}");
    assert(v@ == group_json(*g));
    push_all(out, &v);
}

/// The human report of a composed verification.
pub fn render_verification_human(batch: &VerificationBatch) -> (s: String)
    ensures
        s@ == batch_human(*batch),
{
    let mut out: Vec<char> = Vec::new();
    push_str_chars(&mut out, "verificar: ");
    assert(out@ =~= "verificar: "@);
    push_str_chars(&mut out, batch.outcome());
    push_str_chars(&mut out, "\n");
    let mut results: Vec<char> = Vec::new();
    let ghost rparts = batch.results@.map_values(|it: VerificationItem| result_human(it));
    let mut i: usize = 0;
    assert(rparts.take(0) =~= Seq::<Seq<char>>::empty());
    assert(results@ =~= concat(Seq::empty()));
    while i < batch.results.len()
        invariant
            i <= batch.results@.len(),
            rparts == batch.results@.map_values(|it: VerificationItem| result_human(it)),
            results@ == concat(rparts.take(i as int)),
        decreases batch.results.len() - i,
    {
        proof {
            lemma_concat_push(rparts.take(i as int), rparts[i as int]);
            assert(rparts.take(i + 1) =~= rparts.take(i as int).push(rparts[i as int]));
        }
        let it = &batch.results[i];
        let ghost before = results@;
        push_str_chars(&mut results, it.path.as_str());
        push_str_chars(&mut results, " ");
        push_str_chars(&mut results, it.report.outcome.as_str());
        push_str_chars(&mut results, "\n");
        push_verification_human(&mut results, &it.report);
        assert(results@ =~= before + rparts[i as int]);
        i = i + 1;
    }
    assert(rparts.take(i as int) =~= rparts);
    push_all(&mut out, &results);
    let mut groups: Vec<char> = Vec::new();
    let ghost gparts = batch.causes@.map_values(|g: CauseGroup| group_human(g));
    let mut j: usize = 0;
    assert(gparts.take(0) =~= Seq::<Seq<char>>::empty());
    assert(groups@ =~= concat(Seq::empty()));
    while j < batch.causes.len()
        invariant
            j <= batch.causes@.len(),
            gparts == batch.causes@.map_values(|g: CauseGroup| group_human(g)),
            groups@ == concat(gparts.take(j as int)),
        decreases batch.causes.len() - j,
    {
        proof {
            lemma_concat_push(gparts.take(j as int), gparts[j as int]);
            assert(gparts.take(j + 1) =~= gparts.take(j as int).push(gparts[j as int]));
        }
        push_group_human(&mut groups, &batch.causes[j]);
        j = j + 1;
    }
    assert(gparts.take(j as int) =~= gparts);
    push_all(&mut out, &groups);
    let mut errs: Vec<char> = Vec::new();
    let ghost eparts = errors_view(batch.errors@).map_values(|e: ArtifactErrorView| error_line(e));
    let mut k: usize = 0;
    assert(eparts.take(0) =~= Seq::<Seq<char>>::empty());
    assert(errs@ =~= concat(Seq::empty()));
    while k < batch.errors.len()
        invariant
            k <= batch.errors@.len(),
            eparts == errors_view(batch.errors@).map_values(|e: ArtifactErrorView| error_line(e)),
            errs@ == concat(eparts.take(k as int)),
        decreases batch.errors.len() - k,
    {
        proof {
            lemma_concat_push(eparts.take(k as int), eparts[k as int]);
            assert(eparts.take(k + 1) =~= eparts.take(k as int).push(eparts[k as int]));
        }
        let e = &batch.errors[k];
        let ghost before = errs@;
        push_str_chars(&mut errs, "erro ");
        push_str_chars(&mut errs, e.path.as_str());
        push_str_chars(&mut errs, ": ");
        push_str_chars(&mut errs, e.message.as_str());
        push_str_chars(&mut errs, "\n");
        assert(errs@ =~= before + eparts[k as int]);
        k = k + 1;
    }
    assert(eparts.take(k as int) =~= eparts);
    push_all(&mut out, &errs);
    assert(out@ == batch_human(*batch));
    string_from(&out)
}

fn push_result_json(out: &mut Vec<char>, it: &VerificationItem)
    ensures
        final(out)@ == old(out)@ + result_json(*it),
{
    let mut v: Vec<char> = Vec::new();
    push_str_chars(&mut v, "{\"path\":");
    assert(v@ =~= "{\"path\":"@);
    push_json_string(&mut v, it.path.as_str());
    push_str_chars(&mut v, ",\"verification\":");
    push_verification_json(&mut v, &it.report);
    push_str_chars(&mut v, "}");
    assert(v@ == result_json(*it));
    push_all(out, &v);
}

fn results_json(results: &Vec<VerificationItem>) -> (v: Vec<char>)
    ensures
        v@ == joined(results@.map_values(|it: VerificationItem| result_json(it))),
{
    let mut v: Vec<char> = Vec::new();
    let ghost parts = results@.map_values(|it: VerificationItem| result_json(it));
    let mut i: usize = 0;
    assert(parts.take(0) =~= Seq::<Seq<char>>::empty());
    assert(v@ =~= joined(Seq::empty()));
    while i < results.len()
        invariant
            i <= results@.len(),
            parts == results@.map_values(|it: VerificationItem| result_json(it)),
            v@ == joined(parts.take(i as int)),
        decreases results.len() - i,
    {
        proof {
            lemma_joined_push(parts.take(i as int), parts[i as int]);
            assert(parts.take(i + 1) =~= parts.take(i as int).push(parts[i as int]));
        }
        if i > 0 {
            push_str_chars(&mut v, ",");
        }
        push_result_json(&mut v, &results[i]);
        i = i + 1;
    }
    assert(parts.take(i as int) =~= parts);
    v
}

fn groups_json(causes: &Vec<CauseGroup>) -> (v: Vec<char>)
    ensures
        v@ == joined(causes@.map_values(|g: CauseGroup| group_json(g))),
{
    let mut v: Vec<char> = Vec::new();
    let ghost parts = causes@.map_values(|g: CauseGroup| group_json(g));
    let mut j: usize = 0;
    assert(parts.take(0) =~= Seq::<Seq<char>>::empty());
    assert(v@ =~= joined(Seq::empty()));
    while j < causes.len()
        invariant
            j <= causes@.len(),
            parts == causes@.map_values(|g: CauseGroup| group_json(g)),
            v@ == joined(parts.take(j as int)),
        decreases causes.len() - j,
    {
        proof {
            lemma_joined_push(parts.take(j as int), parts[j as int]);
            assert(parts.take(j + 1) =~= parts.take(j as int).push(parts[j as int]));
        }
        if j > 0 {
            push_str_chars(&mut v, ",");
        }
        push_group_json(&mut v, &causes[j]);
        j = j + 1;
    }
    assert(parts.take(j as int) =~= parts);
    v
}

/// The JSON report of a composed verification.
pub fn render_verification_json(batch: &VerificationBatch) -> (s: String)
    ensures
        s@ == batch_json(*batch),
{
    let results = results_json(&batch.results);
    let groups = groups_json(&batch.causes);
    let mut errs: Vec<char> = Vec::new();
    push_errors_json(&mut errs, &batch.errors);
    assert(errs@ =~= errors_json(errors_view(batch.errors@)));
    let mut out: Vec<char> = Vec::new();
    push_str_chars(&mut out, "{\"schema\":");
    assert(out@ =~= "{\"schema\":"@);
    push_decimal(&mut out, PROJECTION_CLI_SCHEMA);
    push_str_chars(&mut out, ",\"command\":\"verificar\",\"outcome\":");
    push_json_string(&mut out, batch.outcome());
    push_str_chars(&mut out, ",\"results\":[");
    push_all(&mut out, &results);
    push_str_chars(&mut out, "],\"causes\":[");
    push_all(&mut out, &groups);
    push_str_chars(&mut out, "],\"errors\":[");
    push_all(&mut out, &errs);
    push_str_chars(&mut out, "]}");
    assert(out@ == batch_json(*batch));
    string_from(&out)
}

/// The outcome code of an error.
pub open spec fn error_outcome(e: ErrorView) -> Seq<char> {
    match e {
        ErrorView::Authority(_) => "IO_FAILURE"@,
        ErrorView::NotFound { .. } => "NOT_FOUND"@,
        ErrorView::Harness { .. } => "HARNESS_FAILURE"@,
        ErrorView::Policy { .. } => "POLICY_VIOLATION"@,
        ErrorView::Drift { .. } => "DRIFT"@,
        ErrorView::VerifyAfterApply { .. } => "VERIFY_AFTER_APPLY_FAILURE"@,
    }
}

/// Whether anything was written before the error.
pub open spec fn error_written(e: ErrorView) -> bool {
    match e {
        ErrorView::VerifyAfterApply { written, .. } => written,
        _ => false,
    }
}

pub open spec fn error_report_json(command: Seq<char>, e: ErrorView) -> Seq<char> {
    "{\"schema\":"@ + decimal(PROJECTION_CLI_SCHEMA as nat) + ",\"command\":"@ + json_quoted(command)
        + ",\"outcome\":"@ + json_quoted(error_outcome(e)) + ",\"message\":"@ + json_quoted(error_text(e))
        + ",\"written\":"@ + bool_text(error_written(e)) + "}"@
}

/// The JSON report of a refused command.
pub fn render_error_json(command: &str, error: &ProjectionError) -> (s: String)
    ensures
        s@ == error_report_json(command@, error_view(*error)),
{
    let (outcome, written) = match error {
        ProjectionError::Authority(_) => ("IO_FAILURE", false),
        ProjectionError::NotFound { .. } => ("NOT_FOUND", false),
        ProjectionError::Harness { .. } => ("HARNESS_FAILURE", false),
        ProjectionError::Policy { .. } => ("POLICY_VIOLATION", false),
        ProjectionError::Drift { .. } => ("DRIFT", false),
        ProjectionError::VerifyAfterApply { written, .. } => ("VERIFY_AFTER_APPLY_FAILURE", *written),
    };
    let message = error.message();
    let mut out: Vec<char> = Vec::new();
    push_str_chars(&mut out, "{\"schema\":");
    assert(out@ =~= "{\"schema\":"@);
    push_decimal(&mut out, PROJECTION_CLI_SCHEMA);
    push_str_chars(&mut out, ",\"command\":");
    push_json_string(&mut out, command);
    push_str_chars(&mut out, ",\"outcome\":");
    push_json_string(&mut out, outcome);
    push_str_chars(&mut out, ",\"message\":");
    push_json_string(&mut out, message.as_str());
    push_str_chars(&mut out, ",\"written\":");
    push_str_chars(&mut out, if written { "true" } else { "false" });
    push_str_chars(&mut out, "}");
    assert(out@ == error_report_json(command@, error_view(*error)));
    string_from(&out)
}

} // verus!
