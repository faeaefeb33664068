//! Explicit lifecycle of projection snapshots (`CANDIDATE → FROZEN`).
//!
//! This module checks the domain invariants and computes the desired
//! artifacts. Observing the authority, authorizing and writing belong to the
//! caller: nothing here touches the disk.
use crate::nav::CodeRegion;
use crate::nav_projection_recipe::{
    all_dependencies, composed_report, composition_view, lib_view, recipe_key, verify_composed,
    verify_frozen_dependencies, recipe_view, resolve, resolved, snapshot_key, LibView, Recipe, RecipeView, RECIPES_DIR,
    RECIPE_SCHEMA,
};
use crate::nav_projection_snapshot::parser::{parse, parse_spec};
use crate::nav_projection_snapshot::rebuild::{code_regions_view, measures_spec, RegionView};
use crate::nav_projection_snapshot::render::{render, render_text};
use crate::nav_projection_store::{put, store_library};
use crate::nav_projection_snapshot::parser::{check_id, validate_id};
use crate::nav_projection_snapshot::{
    opt_view, rule_view, rules_view, snapshot_view, state_name, Measures, ProjectionSnapshot, Rule, SnapshotState, SnapshotView,
    SNAPSHOT_SCHEMA,
};
use crate::nav_projection_store::{
    find_error, find_id, recipe_id_of, snapshot_id_of, stored_recipe_view, ProjectionStore, StoreView,
    StoredRecipe, StoredRecipeView, StoredSnapshotView,
};
use crate::text::{chars_of, string_rows, trim};
use crate::nav_projection_snapshot::message::{failure_message, failure_text, lemma_failure_text};
use crate::nav_projection_snapshot::report::{one_line, one_line_exec, Outcome, VerifyReport};
use crate::nav_projection_snapshot::{failure_view, FailureView, HarnessFailure, SNAPSHOTS_DIR};
use crate::nav_projection_store::{ArtifactError, StoreFailure};
use crate::text::{push_str_chars, string_from};
use vstd::prelude::*;

verus! {

/// Public schema of the projection command surface.
pub const PROJECTION_CLI_SCHEMA: u64 = 1;

/// Producer name of the lifecycle plans.
pub const PROJECTION_PRODUCER: &'static str = "nav.projecao.lifecycle";

/// Prefix of the own recipe of a candidate.
pub const RECIPE_PREFIX: &'static str = "normalizacao-corrente-para-";

/// Why a lifecycle or report operation was refused.
#[derive(Debug)]
pub enum ProjectionError {
    Authority(StoreFailure),
    NotFound { id: String },
    Harness { path: Option<String>, message: String },
    Policy { message: String },
    Drift { report: Box<VerifyReport> },
    VerifyAfterApply { message: String, written: bool },
}

/// What an error holds, with its texts as character sequences.
pub enum ErrorView {
    Authority(StoreFailure),
    NotFound { id: Seq<char> },
    Harness { path: Option<Seq<char>>, message: Seq<char> },
    Policy { message: Seq<char> },
    Drift { id: Seq<char> },
    VerifyAfterApply { message: Seq<char>, written: bool },
}

pub open spec fn error_view(e: ProjectionError) -> ErrorView {
    match e {
        ProjectionError::Authority(f) => ErrorView::Authority(f),
        ProjectionError::NotFound { id } => ErrorView::NotFound { id: id@ },
        ProjectionError::Harness { path, message } => ErrorView::Harness {
            path: crate::nav_projection_snapshot::opt_view(path),
            message: message@,
        },
        ProjectionError::Policy { message } => ErrorView::Policy { message: message@ },
        ProjectionError::Drift { report } => ErrorView::Drift { id: report.snapshot_id@ },
        ProjectionError::VerifyAfterApply { message, written } => ErrorView::VerifyAfterApply {
            message: message@,
            written,
        },
    }
}

pub open spec fn bool_text(b: bool) -> Seq<char> {
    if b {
        "true"@
    } else {
        "false"@
    }
}

/// The diagnostic text of an error.
pub open spec fn error_text(e: ErrorView) -> Seq<char> {
    match e {
        ErrorView::Authority(f) => match f {
            StoreFailure::AuthorityIo { path, msg } => "autoridade de projeções ilegível em '"@ + path@
                + "': "@ + msg@,
        },
        ErrorView::NotFound { id } => "projeção '"@ + id + "' não encontrada"@,
        ErrorView::Harness { path, message } => match path {
            Some(p) => "HARNESS_FAILURE: "@ + p + ": "@ + message,
            None => "HARNESS_FAILURE: "@ + message,
        },
        ErrorView::Policy { message } => "POLICY_VIOLATION: "@ + message,
        ErrorView::Drift { id } => "DRIFT: candidato '"@ + id + "' não corresponde ao catálogo corrente"@,
        ErrorView::VerifyAfterApply { message, written } => "VERIFY_AFTER_APPLY_FAILURE (written="@
            + bool_text(written) + "): "@ + message,
    }
}

impl ProjectionError {
    /// The diagnostic text of the error.
    pub fn message(&self) -> (s: String)
        ensures
            s@ == error_text(error_view(*self)),
    {
        match self {
            ProjectionError::Authority(f) => f.message(),
            _ => {
                let mut out: Vec<char> = Vec::new();
                match self {
                    ProjectionError::NotFound { id } => {
                        push_str_chars(&mut out, "projeção '");
                        push_str_chars(&mut out, id.as_str());
                        push_str_chars(&mut out, "' não encontrada");
                    },
                    ProjectionError::Harness { path, message } => {
                        push_str_chars(&mut out, "HARNESS_FAILURE: ");
                        match path {
                            Some(p) => {
                                push_str_chars(&mut out, p.as_str());
                                push_str_chars(&mut out, ": ");
                            },
                            None => {},
                        }
                        push_str_chars(&mut out, message.as_str());
                    },
                    ProjectionError::Policy { message } => {
                        push_str_chars(&mut out, "POLICY_VIOLATION: ");
                        push_str_chars(&mut out, message.as_str());
                    },
                    ProjectionError::Drift { report } => {
                        push_str_chars(&mut out, "DRIFT: candidato '");
                        push_str_chars(&mut out, report.snapshot_id.as_str());
                        push_str_chars(&mut out, "' não corresponde ao catálogo corrente");
                    },
                    ProjectionError::VerifyAfterApply { message, written } => {
                        push_str_chars(&mut out, "VERIFY_AFTER_APPLY_FAILURE (written=");
                        push_str_chars(&mut out, if *written { "true" } else { "false" });
                        push_str_chars(&mut out, "): ");
                        push_str_chars(&mut out, message.as_str());
                    },
                    ProjectionError::Authority(_) => {},
                }
                string_from(&out)
            },
        }
    }
}

/// The two lifecycle transitions.
#[derive(Debug, Clone, Copy, PartialEq, Eq, Structural)]
pub enum LifecycleOperation {
    Prepare,
    Accept,
}

pub open spec fn operation_name(o: LifecycleOperation) -> Seq<char> {
    match o {
        LifecycleOperation::Prepare => "PREPARE_CANDIDATE"@,
        LifecycleOperation::Accept => "ACCEPT_CANDIDATE"@,
    }
}

impl LifecycleOperation {
    pub fn as_str(self) -> (s: &'static str)
        ensures
            s@ == operation_name(self),
    {
        match self {
            LifecycleOperation::Prepare => "PREPARE_CANDIDATE",
            LifecycleOperation::Accept => "ACCEPT_CANDIDATE",
        }
    }
}

/// The identifier of the own recipe of candidate `id`.
pub open spec fn own_recipe_id(id: Seq<char>) -> Seq<char> {
    RECIPE_PREFIX@ + id
}

/// The identifier of the own recipe of candidate `id`.
pub fn recipe_id(id: &str) -> (s: String)
    ensures
        s@ == own_recipe_id(id@),
{
    let mut out: Vec<char> = Vec::new();
    push_str_chars(&mut out, RECIPE_PREFIX);
    push_str_chars(&mut out, id);
    string_from(&out)
}

/// Repository path of the snapshot `id`.
pub fn snapshot_path(id: &str) -> (s: String)
    ensures
        s@ == SNAPSHOTS_DIR@ + id@ + ".toml"@,
{
    let mut out: Vec<char> = Vec::new();
    push_str_chars(&mut out, SNAPSHOTS_DIR);
    push_str_chars(&mut out, id);
    push_str_chars(&mut out, ".toml");
    string_from(&out)
}

/// Repository path of the own recipe of candidate `id`.
pub fn recipe_path(id: &str) -> (s: String)
    ensures
        s@ == RECIPES_DIR@ + own_recipe_id(id@) + ".toml"@,
{
    let r = recipe_id(id);
    let mut out: Vec<char> = Vec::new();
    push_str_chars(&mut out, RECIPES_DIR);
    push_str_chars(&mut out, r.as_str());
    push_str_chars(&mut out, ".toml");
    string_from(&out)
}

/// The own recipe of a new candidate: no step, no rule, no budget.
pub open spec fn empty_recipe_view(id: Seq<char>) -> RecipeView {
    RecipeView {
        schema: RECIPE_SCHEMA,
        id: own_recipe_id(id),
        steps: Seq::empty(),
        expected_overrides: 0,
        expected_exclusions: 0,
        rules: Seq::empty(),
    }
}

/// The own recipe of a new candidate: no step, no rule, no budget.
pub fn empty_recipe(id: &str) -> (r: Recipe)
    ensures
        crate::nav_projection_recipe::recipe_view(r) == empty_recipe_view(id@),
{
    let r = Recipe {
        schema: RECIPE_SCHEMA,
        id: recipe_id(id),
        steps: Vec::new(),
        expected_overrides: 0,
        expected_exclusions: 0,
        rules: Vec::new(),
    };
    assert(crate::text::string_rows(r.steps@) =~= Seq::<Seq<char>>::empty());
    assert(crate::nav_projection_snapshot::rules_view(r.rules@) =~= Seq::<crate::nav_projection_snapshot::RuleView>::empty());
    r
}

/// A harness failure as an error: its message on one line, with no path.
pub open spec fn harness_view(f: FailureView) -> ErrorView {
    ErrorView::Harness { path: None, message: one_line(failure_text(f)) }
}

pub fn harness_failure(failure: HarnessFailure) -> (e: ProjectionError)
    ensures
        error_view(e) == harness_view(failure_view(failure)),
{
    proof {
        lemma_failure_text(failure);
    }
    let m = failure.message();
    ProjectionError::Harness { path: None, message: one_line_exec(&m) }
}

/// A structural failure of one artifact as a harness error at its path.
pub fn artifact_harness(error: &ArtifactError) -> (e: ProjectionError)
    ensures
        error_view(e) == (ErrorView::Harness { path: Some(error.path@), message: error.message@ }),
{
    ProjectionError::Harness { path: Some(error.path.clone()), message: error.message.clone() }
}

/// A structural failure of one artifact as a policy violation.
pub fn policy_artifact(error: &ArtifactError, prefix: &str) -> (e: ProjectionError)
    ensures
        error_view(e) == (ErrorView::Policy {
            message: prefix@ + ": "@ + error.path@ + ": "@ + error.message@,
        }),
{
    let mut out: Vec<char> = Vec::new();
    push_str_chars(&mut out, prefix);
    push_str_chars(&mut out, ": ");
    push_str_chars(&mut out, error.path.as_str());
    push_str_chars(&mut out, ": ");
    push_str_chars(&mut out, error.message.as_str());
    ProjectionError::Policy { message: string_from(&out) }
}


/// A policy violation with its message.
pub open spec fn policy(m: Seq<char>) -> ErrorView {
    ErrorView::Policy { message: m }
}

fn policy_error(parts: &Vec<char>) -> (e: ProjectionError)
    ensures
        error_view(e) == policy(parts@),
{
    ProjectionError::Policy { message: string_from(parts) }
}

fn quote_policy(before: &str, id: &str, after: &str) -> (e: ProjectionError)
    ensures
        error_view(e) == policy(before@ + id@ + after@),
{
    let mut out: Vec<char> = Vec::new();
    push_str_chars(&mut out, before);
    push_str_chars(&mut out, id);
    push_str_chars(&mut out, after);
    policy_error(&out)
}

/// Whether a text is only white space.
fn is_blank(s: &str) -> (b: bool)
    ensures
        b == (trim(s@).len() == 0),
{
    let v = chars_of(s);
    assert(v@.subrange(0, v@.len() as int) =~= v@);
    let t = crate::text::trimmed(&v, 0, v.len());
    t.len() == 0
}

/// The checks on the arguments of a preparation.
pub open spec fn input_checked(id: Seq<char>, pred: Seq<char>, just: Seq<char>) -> Result<(), ErrorView> {
    match check_id(id, "id"@) {
        Err(f) => Err(harness_view(f)),
        Ok(_) => if trim(pred).len() == 0 {
            Err(policy("--predecessor é obrigatório"@))
        } else if check_id(pred, "predecessor"@) is Err {
            Err(policy("predecessor inválido"@))
        } else if pred == id {
            Err(policy("candidate não pode ser o próprio predecessor"@))
        } else if trim(just).len() == 0 {
            Err(policy("--justificativa deve ser não vazia"@))
        } else {
            Ok(())
        },
    }
}

pub open spec fn error_unit_view(r: Result<(), ProjectionError>) -> Result<(), ErrorView> {
    match r {
        Ok(_) => Ok(()),
        Err(e) => Err(error_view(e)),
    }
}

pub fn validate_lifecycle_input(id: &str, predecessor: &str, justification: &str) -> (r: Result<
    (),
    ProjectionError,
>)
    ensures
        error_unit_view(r) == input_checked(id@, predecessor@, justification@),
{
    match validate_id(id, "id") {
        Err(f) => {
            return Err(harness_failure(f));
        },
        Ok(()) => {},
    }
    if is_blank(predecessor) {
        return Err(policy_error(&chars_of("--predecessor é obrigatório")));
    }
    match validate_id(predecessor, "predecessor") {
        Err(_) => {
            return Err(policy_error(&chars_of("predecessor inválido")));
        },
        Ok(()) => {},
    }
    if crate::text::str_eq(predecessor, id) {
        return Err(policy_error(&chars_of("candidate não pode ser o próprio predecessor")));
    }
    if is_blank(justification) {
        return Err(policy_error(&chars_of("--justificativa deve ser não vazia")));
    }
    Ok(())
}

/// The shape of a new root: current schema, no base, only its own empty
/// recipe, no budget and no rule, an explicit predecessor and a non-blank
/// justification.
pub open spec fn shape_ok(s: SnapshotView, id: Seq<char>) -> bool {
    &&& s.schema == SNAPSHOT_SCHEMA
    &&& s.base_snapshot is None
    &&& s.recipes == seq![own_recipe_id(id)]
    &&& s.expected_overrides == 0
    &&& s.expected_exclusions == 0
    &&& s.rules.len() == 0
    &&& s.predecessor is Some
    &&& s.justification matches Some(j) && trim(j).len() > 0
}

pub open spec fn shape_checked(s: SnapshotView, id: Seq<char>) -> Result<(), ErrorView> {
    if shape_ok(s, id) {
        Ok(())
    } else {
        Err(policy("candidate '"@ + id + "' não cumpre a forma de nova raiz do Stage E"@))
    }
}

pub fn validate_candidate_shape(snapshot: &ProjectionSnapshot, id: &str) -> (r: Result<(), ProjectionError>)
    ensures
        error_unit_view(r) == shape_checked(snapshot_view(*snapshot), id@),
{
    let expected = recipe_id(id);
    let recipes_ok = snapshot.recipes.len() == 1 && crate::text::str_eq(
        snapshot.recipes[0].as_str(),
        expected.as_str(),
    );
    proof {
        let sv = snapshot_view(*snapshot);
        if recipes_ok {
            assert(sv.recipes =~= seq![own_recipe_id(id@)]);
        }
        if sv.recipes == seq![own_recipe_id(id@)] {
            assert(sv.recipes.len() == 1);
            assert(sv.recipes[0] == snapshot.recipes@[0]@);
        }
    }
    let justified = match &snapshot.justification {
        Some(j) => !is_blank(j.as_str()),
        None => false,
    };
    if snapshot.schema != SNAPSHOT_SCHEMA || snapshot.base_snapshot.is_some() || !recipes_ok
        || snapshot.expected_overrides != 0 || snapshot.expected_exclusions != 0 || snapshot.rules.len()
        != 0 || snapshot.predecessor.is_none() || !justified {
        return Err(quote_policy("candidate '", id, "' não cumpre a forma de nova raiz do Stage E"));
    }
    Ok(())
}

/// The predecessor of a candidate: explicit, not itself, an existing FROZEN
/// snapshot.
pub open spec fn predecessor_checked(st: StoreView, c: SnapshotView) -> Result<(), ErrorView> {
    match c.predecessor {
        None => Err(policy("candidate sem predecessor explícito"@)),
        Some(p) => if p == c.id {
            Err(policy("candidate é o próprio predecessor"@))
        } else {
            match find_id(st.snapshots, snapshot_id_of(), p, 0) {
                None => Err(policy("predecessor '"@ + p + "' não existe"@)),
                Some(k) => if st.snapshots[k].snapshot.state != SnapshotState::Frozen {
                    Err(policy("predecessor '"@ + p + "' deve ser FROZEN"@))
                } else {
                    Ok(())
                },
            }
        },
    }
}

pub fn validate_predecessor(store: &ProjectionStore, candidate: &ProjectionSnapshot) -> (r: Result<
    (),
    ProjectionError,
>)
    ensures
        error_unit_view(r) == predecessor_checked(store.view_of(), snapshot_view(*candidate)),
{
    let predecessor = match &candidate.predecessor {
        Some(p) => p,
        None => {
            return Err(policy_error(&chars_of("candidate sem predecessor explícito")));
        },
    };
    if crate::text::str_eq(predecessor.as_str(), candidate.id.as_str()) {
        return Err(policy_error(&chars_of("candidate é o próprio predecessor")));
    }
    let stored = match store.snapshot(predecessor.as_str()) {
        Some(s) => s,
        None => {
            return Err(quote_policy("predecessor '", predecessor.as_str(), "' não existe"));
        },
    };
    if stored.snapshot.state != SnapshotState::Frozen {
        return Err(quote_policy("predecessor '", predecessor.as_str(), "' deve ser FROZEN"));
    }
    Ok(())
}

fn opt_eq(a: &Option<String>, b: &Option<String>) -> (r: bool)
    ensures
        r == (opt_view(*a) == opt_view(*b)),
{
    match (a, b) {
        (Some(x), Some(y)) => crate::text::str_eq(x.as_str(), y.as_str()),
        (None, None) => true,
        _ => false,
    }
}

fn strings_eq(a: &Vec<String>, b: &Vec<String>) -> (r: bool)
    ensures
        r == (string_rows(a@) == string_rows(b@)),
{
    if a.len() != b.len() {
        proof {
            assert(string_rows(a@).len() != string_rows(b@).len());
        }
        return false;
    }
    let mut i: usize = 0;
    while i < a.len()
        invariant
            i <= a@.len(),
            a@.len() == b@.len(),
            forall|k: int| 0 <= k < i ==> a@[k]@ == b@[k]@,
        decreases a.len() - i,
    {
        if !crate::text::str_eq(a[i].as_str(), b[i].as_str()) {
            proof {
                assert(string_rows(a@)[i as int] != string_rows(b@)[i as int]);
            }
            return false;
        }
        i = i + 1;
    }
    assert(string_rows(a@) =~= string_rows(b@));
    true
}

fn rule_eq(a: &Rule, b: &Rule) -> (r: bool)
    ensures
        r == (rule_view(*a) == rule_view(*b)),
{
    match (a, b) {
        (
            Rule::OverrideHash { key: k1, from: f1, to: t1, expect_file: e1, expect_domain: d1, expect_layer: l1 },
            Rule::OverrideHash { key: k2, from: f2, to: t2, expect_file: e2, expect_domain: d2, expect_layer: l2 },
        ) => crate::text::str_eq(k1.as_str(), k2.as_str()) && crate::text::str_eq(f1.as_str(), f2.as_str())
            && crate::text::str_eq(t1.as_str(), t2.as_str()) && opt_eq(e1, e2) && opt_eq(d1, d2) && opt_eq(l1, l2),
        (Rule::ExcludeKey { key: k1, expected_matches: n1 }, Rule::ExcludeKey { key: k2, expected_matches: n2 }) =>
            crate::text::str_eq(k1.as_str(), k2.as_str()) && *n1 == *n2,
        (
            Rule::ExcludeFilePrefix { prefix: k1, expected_matches: n1 },
            Rule::ExcludeFilePrefix { prefix: k2, expected_matches: n2 },
        ) => crate::text::str_eq(k1.as_str(), k2.as_str()) && *n1 == *n2,
        (Rule::ExcludeFile { file: k1, expected_matches: n1 }, Rule::ExcludeFile { file: k2, expected_matches: n2 }) =>
            crate::text::str_eq(k1.as_str(), k2.as_str()) && *n1 == *n2,
        (
            Rule::ExcludeKeyPrefix { prefix: k1, expected_matches: n1 },
            Rule::ExcludeKeyPrefix { prefix: k2, expected_matches: n2 },
        ) => crate::text::str_eq(k1.as_str(), k2.as_str()) && *n1 == *n2,
        (
            Rule::OverrideRegion {
                key: k1,
                from_hash: a1,
                to_hash: b1,
                from_summary: c1,
                to_summary: d1,
                expect_file: e1,
                to_file: f1,
                expect_domain: g1,
                expect_layer: h1,
            },
            Rule::OverrideRegion {
                key: k2,
                from_hash: a2,
                to_hash: b2,
                from_summary: c2,
                to_summary: d2,
                expect_file: e2,
                to_file: f2,
                expect_domain: g2,
                expect_layer: h2,
            },
        ) => crate::text::str_eq(k1.as_str(), k2.as_str()) && opt_eq(a1, a2) && opt_eq(b1, b2) && opt_eq(c1, c2)
            && opt_eq(d1, d2) && opt_eq(e1, e2) && opt_eq(f1, f2) && opt_eq(g1, g2) && opt_eq(h1, h2),
        (
            Rule::MaterializeRegion {
                key: k1,
                kind: a1,
                domain: b1,
                layer: c1,
                file: d1,
                summary: e1,
                hash: f1,
                status: g1,
            },
            Rule::MaterializeRegion {
                key: k2,
                kind: a2,
                domain: b2,
                layer: c2,
                file: d2,
                summary: e2,
                hash: f2,
                status: g2,
            },
        ) => crate::text::str_eq(k1.as_str(), k2.as_str()) && crate::text::str_eq(a1.as_str(), a2.as_str())
            && opt_eq(b1, b2) && opt_eq(c1, c2) && crate::text::str_eq(d1.as_str(), d2.as_str())
            && crate::text::str_eq(e1.as_str(), e2.as_str()) && crate::text::str_eq(f1.as_str(), f2.as_str())
            && crate::text::str_eq(g1.as_str(), g2.as_str()),
        _ => false,
    }
}

fn rules_eq(a: &Vec<Rule>, b: &Vec<Rule>) -> (r: bool)
    ensures
        r == (rules_view(a@) == rules_view(b@)),
{
    if a.len() != b.len() {
        proof {
            assert(rules_view(a@).len() != rules_view(b@).len());
        }
        return false;
    }
    let mut i: usize = 0;
    while i < a.len()
        invariant
            i <= a@.len(),
            a@.len() == b@.len(),
            forall|k: int| 0 <= k < i ==> rule_view(a@[k]) == rule_view(b@[k]),
        decreases a.len() - i,
    {
        if !rule_eq(&a[i], &b[i]) {
            proof {
                assert(rules_view(a@)[i as int] != rules_view(b@)[i as int]);
            }
            return false;
        }
        i = i + 1;
    }
    assert(rules_view(a@) =~= rules_view(b@));
    true
}

fn recipe_eq(a: &Recipe, b: &Recipe) -> (r: bool)
    ensures
        r == (recipe_view(*a) == recipe_view(*b)),
{
    a.schema == b.schema && crate::text::str_eq(a.id.as_str(), b.id.as_str()) && strings_eq(&a.steps, &b.steps)
        && a.expected_overrides == b.expected_overrides && a.expected_exclusions == b.expected_exclusions
        && rules_eq(&a.rules, &b.rules)
}

fn snapshot_eq(a: &ProjectionSnapshot, b: &ProjectionSnapshot) -> (r: bool)
    ensures
        r == (snapshot_view(*a) == snapshot_view(*b)),
{
    a.schema == b.schema && crate::text::str_eq(a.id.as_str(), b.id.as_str()) && a.state == b.state && opt_eq(
        &a.predecessor,
        &b.predecessor,
    ) && opt_eq(&a.justification, &b.justification) && a.measures == b.measures && a.expected_overrides
        == b.expected_overrides && a.expected_exclusions == b.expected_exclusions
        && a.expected_materializations == b.expected_materializations && opt_eq(
        &a.base_snapshot,
        &b.base_snapshot,
    ) && strings_eq(&a.recipes, &b.recipes) && rules_eq(&a.rules, &b.rules)
}

/// The own recipe already in the store, if any: it must be valid, equal to
/// the desired one and canonical.
pub open spec fn existing_recipe(st: StoreView, id: Seq<char>, desired: RecipeView) -> Result<
    Option<StoredRecipeView>,
    ErrorView,
> {
    match find_error(st.errors, RECIPES_DIR@ + desired.id + ".toml"@, 0) {
        Some(k) => Err(policy("recipe própria inválida"@ + ": "@ + st.errors[k].path + ": "@ + st.errors[k].message)),
        None => match find_id(st.recipes, recipe_id_of(), desired.id, 0) {
            None => Ok(None),
            Some(k) => if st.recipes[k].recipe != desired || !st.recipes[k].canonical {
                Err(
                    policy(
                        "recipe própria de '"@ + id
                            + "' contém manutenção semântica, id divergente ou forma não canônica; sobrescrita automática recusada"@,
                    ),
                )
            } else {
                Ok(Some(st.recipes[k]))
            },
        },
    }
}

pub fn validate_existing_recipe<'a>(store: &'a ProjectionStore, id: &str, desired: &Recipe) -> (r: Result<
    Option<&'a StoredRecipe>,
    ProjectionError,
>)
    ensures
        match existing_recipe(store.view_of(), id@, recipe_view(*desired)) {
            Err(e) => r matches Err(x) && error_view(x) == e,
            Ok(None) => r matches Ok(None),
            Ok(Some(v)) => r matches Ok(Some(x)) && stored_recipe_view(*x) == v,
        },
{
    match store.recipe_error(desired.id.as_str()) {
        Some(error) => {
            return Err(policy_artifact(error, "recipe própria inválida"));
        },
        None => {},
    }
    let stored = match store.recipe(desired.id.as_str()) {
        Some(s) => s,
        None => {
            return Ok(None);
        },
    };
    if !recipe_eq(&stored.recipe, desired) || !stored.canonical {
        return Err(
            quote_policy(
                "recipe própria de '",
                id,
                "' contém manutenção semântica, id divergente ou forma não canônica; sobrescrita automática recusada",
            ),
        );
    }
    Ok(Some(stored))
}

/// A transition to FROZEN changes the state and nothing else.
pub fn ensure_only_state_changed(candidate: &ProjectionSnapshot, frozen: &ProjectionSnapshot) -> (r: Result<
    (),
    ProjectionError,
>)
    ensures
        error_unit_view(r) == (if snapshot_view(*frozen) == (SnapshotView {
            state: SnapshotState::Frozen,
            ..snapshot_view(*candidate)
        }) {
            Ok(())
        } else {
            Err(policy("aceitação tentou modificar campo diferente de state"@))
        }),
{
    let mut expected = crate::nav_projection_store::clone_snapshot(candidate);
    expected.state = SnapshotState::Frozen;
    if !snapshot_eq(&expected, frozen) {
        return Err(policy_error(&chars_of("aceitação tentou modificar campo diferente de state")));
    }
    Ok(())
}


/// The desired state of a lifecycle transition, before any write: the
/// snapshot to write, the own recipe to write when preparing, and the bytes
/// that the own recipe must keep when accepting.
#[derive(Debug)]
pub struct ProjectionPlan {
    pub operation: LifecycleOperation,
    pub desired_snapshot: ProjectionSnapshot,
    pub desired_recipe: Option<Recipe>,
    pub recipe_before: Option<Vec<u8>>,
}

pub struct PlanView {
    pub operation: LifecycleOperation,
    pub desired_snapshot: SnapshotView,
    pub desired_recipe: Option<RecipeView>,
    pub recipe_before: Option<Seq<u8>>,
}

pub open spec fn plan_view(p: ProjectionPlan) -> PlanView {
    PlanView {
        operation: p.operation,
        desired_snapshot: snapshot_view(p.desired_snapshot),
        desired_recipe: match p.desired_recipe {
            Some(r) => Some(recipe_view(r)),
            None => None,
        },
        recipe_before: match p.recipe_before {
            Some(b) => Some(b@),
            None => None,
        },
    }
}

pub open spec fn plan_result(r: Result<ProjectionPlan, ProjectionError>) -> Result<PlanView, ErrorView> {
    match r {
        Ok(p) => Ok(plan_view(p)),
        Err(e) => Err(error_view(e)),
    }
}

/// The candidate that a preparation starts from, with the given measures.
pub open spec fn candidate_view(id: Seq<char>, pred: Seq<char>, just: Seq<char>, m: Measures) -> SnapshotView {
    SnapshotView {
        schema: SNAPSHOT_SCHEMA,
        id,
        state: SnapshotState::Candidate,
        predecessor: Some(pred),
        justification: Some(just),
        measures: m,
        expected_overrides: 0,
        expected_exclusions: 0,
        expected_materializations: 0,
        base_snapshot: None,
        recipes: seq![own_recipe_id(id)],
        rules: Seq::empty(),
    }
}

/// The library of the store with the candidate and its own recipe put in
/// place of those with their identifiers.
pub open spec fn provisional_view(st: StoreView, c: SnapshotView, r: RecipeView) -> LibView {
    LibView {
        snapshots: put(store_library(st).snapshots, snapshot_key(), c),
        recipes: put(store_library(st).recipes, recipe_key(), r),
    }
}

/// An existing snapshot with the candidate's identifier must be a canonical
/// CANDIDATE of the right shape.
pub open spec fn existing_checked(st: StoreView, id: Seq<char>) -> Result<(), ErrorView> {
    match find_id(st.snapshots, snapshot_id_of(), id, 0) {
        None => Ok(()),
        Some(k) => if st.snapshots[k].snapshot.state == SnapshotState::Frozen {
            Err(policy("'"@ + id + "' já é FROZEN; preparar nunca sobrescreve história"@))
        } else if !st.snapshots[k].canonical {
            Err(policy("candidate '"@ + id + "' existente não está na forma canônica"@))
        } else {
            shape_checked(st.snapshots[k].snapshot, id)
        },
    }
}

/// The predecessor named for a preparation must exist, be valid and FROZEN.
pub open spec fn predecessor_found(st: StoreView, pred: Seq<char>) -> Result<(), ErrorView> {
    match find_id(st.snapshots, snapshot_id_of(), pred, 0) {
        None => if find_error(st.errors, SNAPSHOTS_DIR@ + pred + ".toml"@, 0) is Some {
            Err(policy("predecessor '"@ + pred + "' é estruturalmente inválido"@))
        } else {
            Err(policy("predecessor '"@ + pred + "' não existe"@))
        },
        Some(k) => if st.snapshots[k].snapshot.state != SnapshotState::Frozen {
            Err(policy("predecessor '"@ + pred + "' deve ser FROZEN"@))
        } else {
            Ok(())
        },
    }
}

/// What preparing a candidate gives: the checks in order, then the candidate
/// measured by the real resolver over the provisional library, through one
/// canonical render and parse.
pub open spec fn prepared(
    st: StoreView,
    cat: Seq<RegionView>,
    id: Seq<char>,
    pred: Seq<char>,
    just: Seq<char>,
) -> Result<PlanView, ErrorView> {
    match input_checked(id, pred, just) {
        Err(e) => Err(e),
        Ok(_) => match find_error(st.errors, SNAPSHOTS_DIR@ + id + ".toml"@, 0) {
            Some(k) => Err(
                policy("snapshot candidato existente inválido"@ + ": "@ + st.errors[k].path + ": "@ + st.errors[k].message),
            ),
            None => match existing_checked(st, id) {
                Err(e) => Err(e),
                Ok(_) => match predecessor_found(st, pred) {
                    Err(e) => Err(e),
                    Ok(_) => match existing_recipe(st, id, empty_recipe_view(id)) {
                        Err(e) => Err(e),
                        Ok(_) => {
                            let c0 = candidate_view(id, pred, just, Measures { regions: 0, length: 0, fnv1a64: 0 });
                            match resolved(provisional_view(st, c0, empty_recipe_view(id)), id, cat) {
                                Err(f) => Err(harness_view(f)),
                                Ok(c) => match parse_spec(
                                    render_text(candidate_view(id, pred, just, measures_spec(c.regions))),
                                ) {
                                    Err(f) => Err(harness_view(f)),
                                    Ok(v) => Ok(
                                        PlanView {
                                            operation: LifecycleOperation::Prepare,
                                            desired_snapshot: v,
                                            desired_recipe: Some(empty_recipe_view(id)),
                                            recipe_before: None,
                                        },
                                    ),
                                },
                            }
                        },
                    },
                },
            },
        },
    }
}

fn owned(s: &str) -> (r: String)
    ensures
        r@ == s@,
{
    s.to_owned()
}

/// Plans the preparation of a new candidate. Nothing is written: the plan
/// holds the candidate and its own recipe as they must be written.
pub fn plan_prepare(
    store: &ProjectionStore,
    catalog: &[CodeRegion],
    id: &str,
    predecessor: &str,
    justification: &str,
) -> (r: Result<ProjectionPlan, ProjectionError>)
    requires
        store.wf(),
    ensures
        plan_result(r) == prepared(store.view_of(), code_regions_view(catalog@), id@, predecessor@, justification@),
{
    validate_lifecycle_input(id, predecessor, justification)?;
    match store.snapshot_error(id) {
        Some(error) => {
            return Err(policy_artifact(error, "snapshot candidato existente inválido"));
        },
        None => {},
    }
    match store.snapshot(id) {
        Some(existing) => {
            if existing.snapshot.state == SnapshotState::Frozen {
                return Err(quote_policy("'", id, "' já é FROZEN; preparar nunca sobrescreve história"));
            }
            if !existing.canonical {
                return Err(quote_policy("candidate '", id, "' existente não está na forma canônica"));
            }
            validate_candidate_shape(&existing.snapshot, id)?;
        },
        None => {},
    }
    match store.snapshot(predecessor) {
        Some(stored) => {
            if stored.snapshot.state != SnapshotState::Frozen {
                return Err(quote_policy("predecessor '", predecessor, "' deve ser FROZEN"));
            }
        },
        None => {
            if store.snapshot_error(predecessor).is_some() {
                return Err(quote_policy("predecessor '", predecessor, "' é estruturalmente inválido"));
            }
            return Err(quote_policy("predecessor '", predecessor, "' não existe"));
        },
    }
    let desired_recipe = empty_recipe(id);
    match validate_existing_recipe(store, id, &desired_recipe) {
        Err(e) => {
            return Err(e);
        },
        Ok(_) => {},
    }
    let ghost st = store.view_of();
    let mut candidate = ProjectionSnapshot {
        schema: SNAPSHOT_SCHEMA,
        id: owned(id),
        state: SnapshotState::Candidate,
        predecessor: Some(owned(predecessor)),
        justification: Some(owned(justification)),
        measures: Measures { regions: 0, length: 0, fnv1a64: 0 },
        expected_overrides: 0,
        expected_exclusions: 0,
        expected_materializations: 0,
        base_snapshot: None,
        recipes: vec![recipe_id(id)],
        rules: Vec::new(),
    };
    let ghost c0 = candidate_view(id@, predecessor@, justification@, Measures { regions: 0, length: 0, fnv1a64: 0 });
    assert(snapshot_view(candidate) =~= c0) by {
        assert(string_rows(candidate.recipes@) =~= seq![own_recipe_id(id@)]);
        assert(rules_view(candidate.rules@) =~= Seq::<crate::nav_projection_snapshot::RuleView>::empty());
    }
    let mut library = match store.library() {
        Ok(l) => l,
        Err(f) => {
            return Err(harness_failure(f));
        },
    };
    library.put_recipe(crate::nav_projection_store::clone_recipe(&desired_recipe));
    library.put_snapshot(crate::nav_projection_store::clone_snapshot(&candidate));
    assert(lib_view(library) == provisional_view(st, c0, empty_recipe_view(id@)));
    let composition = match resolve(&library, id, catalog) {
        Ok(c) => c,
        Err(f) => {
            return Err(harness_failure(f));
        },
    };
    candidate.measures = composition.measures();
    assert(snapshot_view(candidate) == candidate_view(
        id@,
        predecessor@,
        justification@,
        measures_spec(composition_view(composition).regions),
    ));
    let text = render(&candidate);
    let desired_snapshot = match parse(text.as_str()) {
        Ok(s) => s,
        Err(f) => {
            return Err(harness_failure(f));
        },
    };
    Ok(
        ProjectionPlan {
            operation: LifecycleOperation::Prepare,
            desired_snapshot,
            desired_recipe: Some(desired_recipe),
            recipe_before: None,
        },
    )
}


/// What accepting a checked candidate gives, once its composed
/// verification is known.
pub open spec fn accepted_by_report(
    c: StoredSnapshotView,
    rec: StoredRecipeView,
    rep: VerifyReport,
    pr: Result<PlanView, ErrorView>,
) -> bool {
    match rep.outcome {
        Outcome::Match => pr == Ok::<PlanView, ErrorView>(
            PlanView {
                operation: LifecycleOperation::Accept,
                desired_snapshot: SnapshotView { state: SnapshotState::Frozen, ..c.snapshot },
                desired_recipe: None,
                recipe_before: Some(rec.bytes),
            },
        ),
        Outcome::Drift(_) => pr == Err::<PlanView, ErrorView>(ErrorView::Drift { id: rep.snapshot_id@ }),
        Outcome::HarnessFailure(f) => pr == Err::<PlanView, ErrorView>(harness_view(failure_view(f))),
    }
}

/// The checks of an acceptance on the stored candidate `c`, then its
/// composed verification against the library of the store.
pub open spec fn accept_checked(
    st: StoreView,
    cat: Seq<RegionView>,
    id: Seq<char>,
    c: StoredSnapshotView,
    pr: Result<PlanView, ErrorView>,
) -> bool {
    if c.snapshot.state != SnapshotState::Candidate {
        pr == Err::<PlanView, ErrorView>(
            policy("'"@ + id + "' está em "@ + state_name(c.snapshot.state) + "; aceitar é uma transição única de CANDIDATE"@),
        )
    } else if !c.canonical {
        pr == Err::<PlanView, ErrorView>(policy("candidate '"@ + id + "' não está na forma canônica"@))
    } else {
        match shape_checked(c.snapshot, id) {
            Err(e) => pr == Err::<PlanView, ErrorView>(e),
            Ok(_) => match predecessor_checked(st, c.snapshot) {
                Err(e) => pr == Err::<PlanView, ErrorView>(e),
                Ok(_) => match existing_recipe(st, id, empty_recipe_view(id)) {
                    Err(e) => pr == Err::<PlanView, ErrorView>(e),
                    Ok(None) => pr == Err::<PlanView, ErrorView>(policy("recipe própria de '"@ + id + "' está ausente"@)),
                    Ok(Some(rec)) => match all_dependencies(store_library(st), 0) {
                        Err(f) => pr == Err::<PlanView, ErrorView>(harness_view(f)),
                        Ok(_) => exists|rep: VerifyReport|
                            composed_report(rep, store_library(st), id, cat) && #[trigger] accepted_by_report(
                                c,
                                rec,
                                rep,
                                pr,
                            ),
                    },
                },
            },
        }
    }
}

/// What accepting the candidate `id` gives: a valid identifier, an authority
/// without structural failure, an existing candidate that passes every
/// check and verifies `MATCH`, then the same snapshot with state FROZEN.
pub open spec fn accepted(st: StoreView, cat: Seq<RegionView>, id: Seq<char>, pr: Result<PlanView, ErrorView>) -> bool {
    match check_id(id, "id"@) {
        Err(f) => pr == Err::<PlanView, ErrorView>(harness_view(f)),
        Ok(_) => match find_error(st.errors, SNAPSHOTS_DIR@ + id + ".toml"@, 0) {
            Some(k) => pr == Err::<PlanView, ErrorView>(ErrorView::Harness { path: Some(st.errors[k].path), message: st.errors[k].message }),
            None => if st.errors.len() > 0 {
                pr == Err::<PlanView, ErrorView>(ErrorView::Harness { path: Some(st.errors[0].path), message: st.errors[0].message })
            } else {
                match find_id(st.snapshots, snapshot_id_of(), id, 0) {
                    None => pr == Err::<PlanView, ErrorView>(ErrorView::NotFound { id }),
                    Some(k) => accept_checked(st, cat, id, st.snapshots[k], pr),
                }
            },
        },
    }
}

/// A preparation only ever builds on a FROZEN predecessor: when it succeeds,
/// the named predecessor is a stored snapshot in state FROZEN; and when the
/// inputs, the store and any existing candidate pass their checks, a stored
/// predecessor in another state is refused with the policy error that names
/// it.
pub proof fn law_prepare_needs_frozen_predecessor(
    st: StoreView,
    cat: Seq<RegionView>,
    id: Seq<char>,
    pred: Seq<char>,
    just: Seq<char>,
)
    ensures
        prepared(st, cat, id, pred, just) is Ok ==> (find_id(st.snapshots, snapshot_id_of(), pred, 0) matches Some(
            k,
        ) && st.snapshots[k].snapshot.state == SnapshotState::Frozen),
        (input_checked(id, pred, just) is Ok && find_error(st.errors, SNAPSHOTS_DIR@ + id + ".toml"@, 0) is None
            && existing_checked(st, id) is Ok && find_id(st.snapshots, snapshot_id_of(), pred, 0) is Some
            && st.snapshots[find_id(st.snapshots, snapshot_id_of(), pred, 0)->0].snapshot.state
            != SnapshotState::Frozen) ==> prepared(st, cat, id, pred, just) == Err::<
            PlanView,
            ErrorView,
        >(policy("predecessor '"@ + pred + "' deve ser FROZEN"@)),
{
}

/// An acceptance refuses a stored snapshot that is not a CANDIDATE: with a
/// valid id, a store that loaded without errors and a stored snapshot of
/// that id in another state, the answer is the policy refusal that names
/// the id and its state.
pub proof fn law_accept_refuses_non_candidate(
    st: StoreView,
    cat: Seq<RegionView>,
    id: Seq<char>,
    pr: Result<PlanView, ErrorView>,
)
    requires
        accepted(st, cat, id, pr),
        check_id(id, "id"@) is Ok,
        st.errors.len() == 0,
        find_id(st.snapshots, snapshot_id_of(), id, 0) is Some,
        st.snapshots[find_id(st.snapshots, snapshot_id_of(), id, 0)->0].snapshot.state != SnapshotState::Candidate,
    ensures
        pr == Err::<PlanView, ErrorView>(
            policy(
                "'"@ + id + "' está em "@ + state_name(
                    st.snapshots[find_id(st.snapshots, snapshot_id_of(), id, 0)->0].snapshot.state,
                ) + "; aceitar é uma transição única de CANDIDATE"@,
            ),
        ),
{
    assert(find_error(st.errors, SNAPSHOTS_DIR@ + id + ".toml"@, 0) is None);
}

/// An acceptance only ever freezes: when it succeeds, `id` names a stored
/// CANDIDATE and the planned snapshot is that same snapshot with state
/// FROZEN and nothing else changed, with no recipe to write.
pub proof fn law_accept_only_freezes_a_candidate(
    st: StoreView,
    cat: Seq<RegionView>,
    id: Seq<char>,
    pr: Result<PlanView, ErrorView>,
)
    requires
        accepted(st, cat, id, pr),
        pr is Ok,
    ensures
        find_id(st.snapshots, snapshot_id_of(), id, 0) is Some,
        ({
            let c = st.snapshots[find_id(st.snapshots, snapshot_id_of(), id, 0)->0].snapshot;
            &&& c.state == SnapshotState::Candidate
            &&& pr->Ok_0.operation == LifecycleOperation::Accept
            &&& pr->Ok_0.desired_snapshot == (SnapshotView { state: SnapshotState::Frozen, ..c })
            &&& pr->Ok_0.desired_recipe is None
        }),
{
    let k = find_id(st.snapshots, snapshot_id_of(), id, 0)->0;
    let c = st.snapshots[k];
    let rec = existing_recipe(st, id, empty_recipe_view(id))->Ok_0->Some_0;
    let rep = choose|rep: VerifyReport| composed_report(rep, store_library(st), id, cat) && #[trigger] accepted_by_report(
        c,
        rec,
        rep,
        pr,
    );
}

fn clone_bytes(b: &Vec<u8>) -> (r: Vec<u8>)
    ensures
        r@ == b@,
{
    let mut r: Vec<u8> = Vec::new();
    let mut i: usize = 0;
    while i < b.len()
        invariant
            i <= b@.len(),
            r@ == b@.take(i as int),
        decreases b.len() - i,
    {
        r.push(b[i]);
        assert(r@ =~= b@.take(i + 1));
        i = i + 1;
    }
    assert(b@.take(i as int) =~= b@);
    r
}

/// Plans the single transition CANDIDATE → FROZEN. Nothing is written: the
/// plan holds the frozen snapshot and the bytes of the own recipe, which
/// the transition must leave unchanged.
pub fn plan_accept(store: &ProjectionStore, catalog: &[CodeRegion], id: &str) -> (r: Result<
    ProjectionPlan,
    ProjectionError,
>)
    requires
        store.wf(),
    ensures
        accepted(store.view_of(), code_regions_view(catalog@), id@, plan_result(r)),
{
    let ghost st = store.view_of();
    match validate_id(id, "id") {
        Err(f) => {
            return Err(harness_failure(f));
        },
        Ok(()) => {},
    }
    match store.snapshot_error(id) {
        Some(error) => {
            return Err(artifact_harness(error));
        },
        None => {},
    }
    let errors = store.errors();
    if errors.len() > 0 {
        assert(st.errors[0] == crate::nav_projection_store::artifact_error_view(errors@[0]));
        return Err(artifact_harness(&errors[0]));
    }
    let stored = match store.snapshot(id) {
        Some(s) => s,
        None => {
            return Err(ProjectionError::NotFound { id: owned(id) });
        },
    };
    let candidate = &stored.snapshot;
    if candidate.state != SnapshotState::Candidate {
        let mut out: Vec<char> = Vec::new();
        push_str_chars(&mut out, "'");
        push_str_chars(&mut out, id);
        push_str_chars(&mut out, "' está em ");
        push_str_chars(&mut out, candidate.state.as_str());
        push_str_chars(&mut out, "; aceitar é uma transição única de CANDIDATE");
        return Err(policy_error(&out));
    }
    if !stored.canonical {
        return Err(quote_policy("candidate '", id, "' não está na forma canônica"));
    }
    validate_candidate_shape(candidate, id)?;
    validate_predecessor(store, candidate)?;
    let desired_recipe = empty_recipe(id);
    let recipe = match validate_existing_recipe(store, id, &desired_recipe) {
        Err(e) => {
            return Err(e);
        },
        Ok(None) => {
            return Err(quote_policy("recipe própria de '", id, "' está ausente"));
        },
        Ok(Some(r)) => r,
    };
    let library = match store.library() {
        Ok(l) => l,
        Err(f) => {
            return Err(harness_failure(f));
        },
    };
    match verify_frozen_dependencies(&library) {
        Err(f) => {
            return Err(harness_failure(f));
        },
        Ok(()) => {},
    }
    let verification = verify_composed(&library, id, catalog);
    let ghost rep = verification;
    let ghost c = st.snapshots[find_id(st.snapshots, snapshot_id_of(), id@, 0)->0];
    let ghost rec = stored_recipe_view(*recipe);
    match verification.outcome {
        Outcome::Match => {},
        Outcome::Drift(_) => {
            let e = ProjectionError::Drift { report: Box::new(verification) };
            assert(accepted_by_report(c, rec, rep, Err(error_view(e))));
            return Err(e);
        },
        Outcome::HarnessFailure(f) => {
            let e = harness_failure(f);
            assert(accepted_by_report(c, rec, rep, Err(error_view(e))));
            return Err(e);
        },
    }
    let mut frozen = crate::nav_projection_store::clone_snapshot(candidate);
    frozen.state = SnapshotState::Frozen;
    ensure_only_state_changed(candidate, &frozen)?;
    let plan = ProjectionPlan {
        operation: LifecycleOperation::Accept,
        desired_snapshot: frozen,
        desired_recipe: None,
        recipe_before: Some(clone_bytes(&recipe.bytes)),
    };
    assert(plan_view(plan).desired_snapshot =~= SnapshotView { state: SnapshotState::Frozen, ..c.snapshot });
    assert(accepted_by_report(c, rec, rep, Ok(plan_view(plan))));
    Ok(plan)
}

} // verus!
