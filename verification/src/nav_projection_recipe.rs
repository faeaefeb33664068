//! Reconstruction recipes and the composition of snapshots.
//!
//! A recipe is a reusable transformation and nothing more: no measures, no
//! state, no predecessor. It may compose other recipes, never snapshots, so
//! the graph keeps one direction: `snapshot → snapshot` and
//! `snapshot → recipe → recipe`. `base_snapshot` looks only among snapshots
//! and `recipes` only among recipes; the two namespaces never meet.
//!
//! The recipe format has its own versions, independent of the snapshot
//! format.
use crate::nav_projection_snapshot::parser::{
    build_rule, check_id, check_known, count_overrides, opt_list, optional_list, reject_unknown,
    req_integer, req_text, require_integer, require_text, result_unit_view, rule_of, rules_check,
    sort_rules, sorted_rules, strs, validate_id, validate_rules,
};
use crate::nav_projection_snapshot::rebuild::apply_rules;
use crate::nav_projection_snapshot::report::{
    divergences, divergences_exec, divergences_view, Divergence, Outcome, VerifyReport,
};
use crate::nav_projection_snapshot::render::{
    int_line, push_int_line, push_quoted, push_recipes, push_sorted_rules, push_text_line, quoted,
    recipe_list, rules_text, text_line,
};
use crate::nav_projection_snapshot::toml::{
    doc_view, opt_table_view, parse_raw, raw_document, table_get, table_view, tables_view, DocView,
    RawDocument, ScalarView, Table,
};
use crate::nav_projection_snapshot::{
    failure_view, rule_is_override, rule_min_schema, rule_op, rule_view, rules_view, snapshot_view,
    FailureView, HarnessFailure, Measures, ProjectionSnapshot, Rule, RuleView, SchemaAuthority,
    SnapshotState, SnapshotView,
};
use crate::nav::CodeRegion;
use crate::nav_projection_snapshot::rebuild::{
    applied, code_region_view, code_regions_view, consumption_view, ledger_view, measure, measures_spec, regions_view, rows_view,
    ConsumptionView, ProjectionRegion, RegionView, RuleConsumption,
};
use crate::text::{chars_of, decimal, push_decimal, push_str_chars, rows, seq_lt, string_from, string_rows};
use vstd::prelude::*;

verus! {

/// First version of the recipe format.
pub const RECIPE_SCHEMA_V1: u64 = 1;

/// Second version: adds `override-region`.
pub const RECIPE_SCHEMA_V2: u64 = 2;

/// Third version: adds `override-region` with `to_file`.
pub const RECIPE_SCHEMA_V3: u64 = 3;

/// Version new recipes are written with.
pub const RECIPE_SCHEMA: u64 = 2;

/// Canonical repository-relative directory of the recipes.
pub const RECIPES_DIR: &'static str = ".pinker/projections/recipes/";

/// A reusable transformation, with no historical identity.
#[derive(Debug, Clone, PartialEq, Eq)]
pub struct Recipe {
    pub schema: u64,
    pub id: String,
    /// Recipes applied before the local rules, in the declared order.
    pub steps: Vec<String>,
    pub expected_overrides: u64,
    pub expected_exclusions: u64,
    pub rules: Vec<Rule>,
}

pub struct RecipeView {
    pub schema: u64,
    pub id: Seq<char>,
    pub steps: Seq<Seq<char>>,
    pub expected_overrides: u64,
    pub expected_exclusions: u64,
    pub rules: Seq<RuleView>,
}

pub open spec fn recipe_view(r: Recipe) -> RecipeView {
    RecipeView {
        schema: r.schema,
        id: r.id@,
        steps: string_rows(r.steps@),
        expected_overrides: r.expected_overrides,
        expected_exclusions: r.expected_exclusions,
        rules: rules_view(r.rules@),
    }
}

pub open spec fn recipe_root_keys() -> Seq<Seq<char>> {
    seq!["schema"@, "id"@]
}

pub open spec fn recipe_reconstruction_keys() -> Seq<Seq<char>> {
    seq!["steps"@, "expected_overrides"@, "expected_exclusions"@]
}

fn recipe_root_keys_list() -> (v: Vec<&'static str>)
    ensures
        strs(v@) == recipe_root_keys(),
{
    let mut v: Vec<&'static str> = Vec::new();
    v.push("schema");
    v.push("id");
    assert(strs(v@) =~= recipe_root_keys());
    v
}

fn recipe_reconstruction_keys_list() -> (v: Vec<&'static str>)
    ensures
        strs(v@) == recipe_reconstruction_keys(),
{
    let mut v: Vec<&'static str> = Vec::new();
    v.push("steps");
    v.push("expected_overrides");
    v.push("expected_exclusions");
    assert(strs(v@) =~= recipe_reconstruction_keys());
    v
}

pub open spec fn snapshot_field(field: Seq<char>) -> FailureView {
    FailureView::RecipeHasSnapshotField { field }
}

/// A field that belongs to snapshots only, if the document declares one.
pub open spec fn forbidden_field(d: DocView) -> Option<Seq<char>> {
    if d.measures is Some {
        Some("measures"@)
    } else if table_get(d.root, "state"@) is Some {
        Some("state"@)
    } else if table_get(d.root, "predecessor"@) is Some {
        Some("predecessor"@)
    } else if table_get(d.root, "justification"@) is Some {
        Some("justification"@)
    } else if d.reconstruction is Some && table_get(d.reconstruction->0, "base_snapshot"@) is Some {
        Some("reconstruction.base_snapshot"@)
    } else if d.reconstruction is Some && table_get(d.reconstruction->0, "recipes"@) is Some {
        Some("reconstruction.recipes"@)
    } else {
        None
    }
}

/// The declared schema of a recipe, if it is one this format knows.
pub open spec fn recipe_schema(root: Seq<(Seq<char>, ScalarView)>) -> Result<u64, FailureView> {
    match table_get(root, "schema"@) {
        None => Err(FailureView::SchemaUnknown { authority: SchemaAuthority::Recipe, found: 0 }),
        Some(ScalarView::Integer(n)) => if 1 <= n <= 3 {
            Ok(n)
        } else {
            Err(FailureView::SchemaUnknown { authority: SchemaAuthority::Recipe, found: n })
        },
        Some(_) => Err(
            FailureView::InvalidField { field: "schema"@, msg: "esperado inteiro, não texto"@ },
        ),
    }
}

pub open spec fn step_field(pos: int) -> Seq<char> {
    "reconstruction.steps["@ + decimal(pos as nat) + "]"@
}

/// The steps from position `pos` on: safe identifiers, none the recipe
/// itself, each declared once.
pub open spec fn steps_checked(ss: Seq<Seq<char>>, id: Seq<char>, pos: int) -> Result<(), FailureView>
    decreases ss.len() - pos,
{
    if pos < 0 || pos >= ss.len() {
        Ok(())
    } else if check_id(ss[pos], step_field(pos)) is Err {
        check_id(ss[pos], step_field(pos))
    } else if ss[pos] == id {
        Err(FailureView::RecipeSelfStep { id })
    } else if ss.take(pos).contains(ss[pos]) {
        Err(
            FailureView::InvalidField {
                field: step_field(pos),
                msg: "passo '"@ + ss[pos] + "' declarado duas vezes no mesmo escopo"@,
            },
        )
    } else {
        steps_checked(ss, id, pos + 1)
    }
}

/// The rules of the tables from `i` on, each built and admitted by the
/// recipe's schema before the next is read.
pub open spec fn recipe_rules(ts: Seq<Seq<(Seq<char>, ScalarView)>>, schema: u64, i: int) -> Result<
    Seq<RuleView>,
    FailureView,
>
    decreases ts.len() - i,
{
    if i < 0 || i >= ts.len() {
        Ok(Seq::empty())
    } else {
        match rule_of(ts[i], i as usize) {
            Err(e) => Err(e),
            Ok(r) => if r is MaterializeRegion {
                Err(FailureView::OperationOutsideAuthority { authority: SchemaAuthority::Recipe, op: rule_op(r) })
            } else if rule_min_schema(r, SchemaAuthority::Recipe) > schema {
                Err(
                    FailureView::CapabilityRequiresSchema {
                        authority: SchemaAuthority::Recipe,
                        capability: "op '"@ + rule_op(r) + "'"@,
                        found_schema: schema,
                        required_schema: rule_min_schema(r, SchemaAuthority::Recipe),
                    },
                )
            } else {
                match recipe_rules(ts, schema, i + 1) {
                    Ok(rest) => Ok(seq![r] + rest),
                    Err(e) => Err(e),
                }
            },
        }
    }
}

/// The declared budgets against the rules found.
pub open spec fn recipe_budgets(eo: u64, ee: u64, rs: Seq<RuleView>) -> Result<(), FailureView> {
    let fo = count_overrides(rs);
    let fe = rs.len() - fo;
    if eo > fo {
        Err(FailureView::OverrideMissing { declared: eo, found: fo as u64 })
    } else if eo < fo {
        Err(FailureView::OverrideExcess { declared: eo, found: fo as u64 })
    } else if ee > fe {
        Err(FailureView::ExclusionMissing { declared: ee, found: fe as u64 })
    } else if ee < fe {
        Err(FailureView::ExclusionExcess { declared: ee, found: fe as u64 })
    } else {
        Ok(())
    }
}

/// The recipe a raw document describes, or the first failure.
pub open spec fn recipe_of(d: DocView) -> Result<RecipeView, FailureView> {
    let schema = recipe_schema(d.root);
    let id = req_text(d.root, "id"@, ""@);
    let t = d.reconstruction->0;
    let scope = "reconstruction."@;
    let steps = opt_list(t, "steps"@, scope);
    let eo = req_integer(t, "expected_overrides"@, scope);
    let ee = req_integer(t, "expected_exclusions"@, scope);
    let rules = recipe_rules(d.rules, schema->Ok_0, 0);
    if forbidden_field(d) is Some {
        Err(snapshot_field(forbidden_field(d)->0))
    } else if check_known(d.root, recipe_root_keys(), ""@) is Err {
        Err(check_known(d.root, recipe_root_keys(), ""@)->Err_0)
    } else if schema is Err {
        Err(schema->Err_0)
    } else if id is Err {
        Err(id->Err_0)
    } else if check_id(id->Ok_0, "id"@) is Err {
        Err(check_id(id->Ok_0, "id"@)->Err_0)
    } else if d.reconstruction is None {
        Err(FailureView::MissingField { field: "reconstruction"@ })
    } else if check_known(t, recipe_reconstruction_keys(), scope) is Err {
        Err(check_known(t, recipe_reconstruction_keys(), scope)->Err_0)
    } else if steps is Err {
        Err(steps->Err_0)
    } else if steps_checked(steps->Ok_0, id->Ok_0, 0) is Err {
        Err(steps_checked(steps->Ok_0, id->Ok_0, 0)->Err_0)
    } else if eo is Err {
        Err(eo->Err_0)
    } else if ee is Err {
        Err(ee->Err_0)
    } else if rules is Err {
        Err(rules->Err_0)
    } else if recipe_budgets(eo->Ok_0, ee->Ok_0, rules->Ok_0) is Err {
        Err(recipe_budgets(eo->Ok_0, ee->Ok_0, rules->Ok_0)->Err_0)
    } else {
        Ok(
            RecipeView {
                schema: schema->Ok_0,
                id: id->Ok_0,
                steps: steps->Ok_0,
                expected_overrides: eo->Ok_0,
                expected_exclusions: ee->Ok_0,
                rules: sorted_rules(rules->Ok_0),
            },
        )
    }
}

/// What a recipe text holds, or the failure of the first check it breaks.
pub open spec fn recipe_spec(text: Seq<char>) -> Result<RecipeView, FailureView> {
    match raw_document(text) {
        Err((line, msg)) => Err(FailureView::Toml(line as usize, msg)),
        Ok(d) => recipe_of(d),
    }
}

fn owned(v: &str) -> (s: String)
    ensures
        s@ == v@,
{
    string_from(chars_of(v).as_slice())
}

fn forbidden_exec(raw: &RawDocument) -> (r: Option<String>)
    ensures
        match forbidden_field(doc_view(*raw)) {
            Some(f) => r matches Some(s) && s@ == f,
            None => r is None,
        },
{
    if raw.measures.is_some() {
        return Some(owned("measures"));
    }
    if raw.root.get("state").is_some() {
        return Some(owned("state"));
    }
    if raw.root.get("predecessor").is_some() {
        return Some(owned("predecessor"));
    }
    if raw.root.get("justification").is_some() {
        return Some(owned("justification"));
    }
    match &raw.reconstruction {
        Some(t) => {
            if t.get("base_snapshot").is_some() {
                return Some(owned("reconstruction.base_snapshot"));
            }
            if t.get("recipes").is_some() {
                return Some(owned("reconstruction.recipes"));
            }
        },
        None => {},
    }
    None
}

fn schema_exec(root: &Table) -> (r: Result<u64, HarnessFailure>)
    ensures
        match recipe_schema(table_view(*root)) {
            Ok(n) => r == Ok::<u64, HarnessFailure>(n),
            Err(f) => r matches Err(e) && failure_view(e) == f,
        },
{
    let schema = match root.get("schema") {
        Some(scalar) => match scalar.as_integer() {
            Some(value) => value,
            None => {
                return Err(
                    HarnessFailure::InvalidField {
                        field: owned("schema"),
                        msg: owned("esperado inteiro, não texto"),
                    },
                );
            },
        },
        None => {
            return Err(HarnessFailure::SchemaUnknown { authority: SchemaAuthority::Recipe, found: 0 });
        },
    };
    if !(RECIPE_SCHEMA_V1 <= schema && schema <= RECIPE_SCHEMA_V3) {
        return Err(HarnessFailure::SchemaUnknown { authority: SchemaAuthority::Recipe, found: schema });
    }
    Ok(schema)
}

fn step_field_text(pos: usize) -> (s: String)
    ensures
        s@ == step_field(pos as int),
{
    let mut v: Vec<char> = Vec::new();
    push_str_chars(&mut v, "reconstruction.steps[");
    push_decimal(&mut v, pos as u64);
    push_str_chars(&mut v, "]");
    string_from(&v)
}

fn steps_exec(steps: &Vec<String>, id: &String) -> (r: Result<(), HarnessFailure>)
    ensures
        result_unit_view(r) == steps_checked(string_rows(steps@), id@, 0),
{
    let ghost sv = string_rows(steps@);
    let mut pos: usize = 0;
    while pos < steps.len()
        invariant
            pos <= steps@.len(),
            sv == string_rows(steps@),
            steps_checked(sv, id@, 0) == steps_checked(sv, id@, pos as int),
        decreases steps.len() - pos,
    {
        assert(sv[pos as int] == steps@[pos as int]@);
        let field = step_field_text(pos);
        validate_id(steps[pos].as_str(), field.as_str())?;
        if crate::text::str_eq(steps[pos].as_str(), id.as_str()) {
            return Err(HarnessFailure::RecipeSelfStep { id: id.clone() });
        }
        let mut seen = false;
        let mut j: usize = 0;
        while j < pos
            invariant
                j <= pos < steps@.len(),
                sv == string_rows(steps@),
                seen == exists|k: int| 0 <= k < j && sv[k] == sv[pos as int],
            decreases pos - j,
        {
            assert(sv[j as int] == steps@[j as int]@);
            assert(sv[pos as int] == steps@[pos as int]@);
            if crate::text::str_eq(steps[j].as_str(), steps[pos].as_str()) {
                seen = true;
            }
            j = j + 1;
        }
        proof {
            if seen {
                let k = choose|k: int| 0 <= k < pos && sv[k] == sv[pos as int];
                assert(sv.take(pos as int)[k] == sv[pos as int]);
            } else {
                assert(!sv.take(pos as int).contains(sv[pos as int])) by {
                    if sv.take(pos as int).contains(sv[pos as int]) {
                        let k = choose|k: int| 0 <= k < pos && sv.take(pos as int)[k] == sv[pos as int];
                        assert(sv[k] == sv[pos as int]);
                    }
                }
            }
        }
        if seen {
            let mut m: Vec<char> = Vec::new();
            push_str_chars(&mut m, "passo '");
            push_str_chars(&mut m, steps[pos].as_str());
            push_str_chars(&mut m, "' declarado duas vezes no mesmo escopo");
            return Err(HarnessFailure::InvalidField { field, msg: string_from(&m) });
        }
        pos = pos + 1;
    }
    Ok(())
}

fn op_capability(op: &str) -> (s: String)
    ensures
        s@ == "op '"@ + op@ + "'"@,
{
    let mut v: Vec<char> = Vec::new();
    push_str_chars(&mut v, "op '");
    push_str_chars(&mut v, op);
    push_str_chars(&mut v, "'");
    string_from(&v)
}

fn recipe_rules_exec(ts: &Vec<Table>, schema: u64) -> (r: Result<Vec<Rule>, HarnessFailure>)
    ensures
        match recipe_rules(tables_view(ts@), schema, 0) {
            Ok(v) => r matches Ok(rs) && rules_view(rs@) == v,
            Err(f) => r matches Err(e) && failure_view(e) == f,
        },
{
    let ghost tv = tables_view(ts@);
    let mut rules: Vec<Rule> = Vec::new();
    let mut i: usize = 0;
    proof {
        assert(rules_view(rules@) =~= Seq::<RuleView>::empty());
        match recipe_rules(tv, schema, 0) {
            Ok(v) => {
                assert(rules_view(rules@) + v =~= v);
            },
            Err(_) => {},
        }
    }
    while i < ts.len()
        invariant
            i <= ts@.len(),
            tv == tables_view(ts@),
            recipe_rules(tv, schema, 0) == (match recipe_rules(tv, schema, i as int) {
                Ok(rest) => Ok(rules_view(rules@) + rest),
                Err(e) => Err(e),
            }),
        decreases ts.len() - i,
    {
        assert(tv[i as int] == table_view(ts@[i as int]));
        let r = build_rule(&ts[i], i)?;
        if r.is_materialization() {
            return Err(
                HarnessFailure::OperationOutsideAuthority { authority: SchemaAuthority::Recipe, op: owned(r.op()) },
            );
        }
        let required = r.min_schema(SchemaAuthority::Recipe);
        if required > schema {
            return Err(
                HarnessFailure::CapabilityRequiresSchema {
                    authority: SchemaAuthority::Recipe,
                    capability: op_capability(r.op()),
                    found_schema: schema,
                    required_schema: required,
                },
            );
        }
        let ghost before = rules_view(rules@);
        rules.push(r);
        proof {
            assert(rules_view(rules@) =~= before.push(rule_view(r)));
            match recipe_rules(tv, schema, i + 1) {
                Ok(rest) => {
                    assert(before + (seq![rule_view(r)] + rest) =~= rules_view(rules@) + rest);
                },
                Err(_) => {},
            }
        }
        i = i + 1;
    }
    proof {
        assert(rules_view(rules@) + Seq::<RuleView>::empty() =~= rules_view(rules@));
    }
    Ok(rules)
}

fn count_overrides_exec(rules: &Vec<Rule>) -> (n: u64)
    ensures
        n == count_overrides(rules_view(rules@)),
        n <= rules@.len(),
{
    let ghost s = rules_view(rules@);
    let mut o: u64 = 0;
    let mut i: usize = 0;
    assert(s.take(0) =~= Seq::<RuleView>::empty());
    while i < rules.len()
        invariant
            i <= rules@.len(),
            s == rules_view(rules@),
            o == count_overrides(s.take(i as int)),
            o <= i,
        decreases rules.len() - i,
    {
        assert(s.take(i + 1).drop_last() =~= s.take(i as int));
        assert(s.take(i + 1).last() == rule_view(rules@[i as int]));
        if rules[i].is_override() {
            o = o + 1;
        }
        i = i + 1;
    }
    assert(s.take(i as int) =~= s);
    o
}

/// The recipe a raw document describes, validated in full.
fn build_recipe(raw: RawDocument) -> (r: Result<Recipe, HarnessFailure>)
    ensures
        match recipe_of(doc_view(raw)) {
            Ok(v) => r matches Ok(x) && recipe_view(x) == v,
            Err(f) => r matches Err(e) && failure_view(e) == f,
        },
{
    match forbidden_exec(&raw) {
        Some(field) => {
            return Err(HarnessFailure::RecipeHasSnapshotField { field });
        },
        None => {},
    }
    reject_unknown(&raw.root, &recipe_root_keys_list(), "")?;
    let schema = schema_exec(&raw.root)?;
    let id = require_text(&raw.root, "id", "")?;
    validate_id(id.as_str(), "id")?;
    let reconstruction = match &raw.reconstruction {
        Some(t) => t,
        None => {
            return Err(HarnessFailure::MissingField { field: owned("reconstruction") });
        },
    };
    let scope = "reconstruction.";
    reject_unknown(reconstruction, &recipe_reconstruction_keys_list(), scope)?;
    let steps = optional_list(reconstruction, "steps", scope)?;
    steps_exec(&steps, &id)?;
    let expected_overrides = require_integer(reconstruction, "expected_overrides", scope)?;
    let expected_exclusions = require_integer(reconstruction, "expected_exclusions", scope)?;
    let mut rules = recipe_rules_exec(&raw.rules, schema)?;
    let found_overrides = count_overrides_exec(&rules);
    let found_exclusions = rules.len() as u64 - found_overrides;
    if expected_overrides != found_overrides {
        return Err(
            if expected_overrides > found_overrides {
                HarnessFailure::OverrideMissing { declared: expected_overrides, found: found_overrides }
            } else {
                HarnessFailure::OverrideExcess { declared: expected_overrides, found: found_overrides }
            },
        );
    }
    if expected_exclusions != found_exclusions {
        return Err(
            if expected_exclusions > found_exclusions {
                HarnessFailure::ExclusionMissing { declared: expected_exclusions, found: found_exclusions }
            } else {
                HarnessFailure::ExclusionExcess { declared: expected_exclusions, found: found_exclusions }
            },
        );
    }
    sort_rules(&mut rules);
    Ok(Recipe { schema, id, steps, expected_overrides, expected_exclusions, rules })
}

/// Reads the text of a recipe. Touches no file.
pub fn parse_recipe(text: &str) -> (r: Result<Recipe, HarnessFailure>)
    ensures
        match recipe_spec(text@) {
            Ok(v) => r matches Ok(x) && recipe_view(x) == v,
            Err(f) => r matches Err(e) && failure_view(e) == f,
        },
{
    match parse_raw(text) {
        Err(e) => Err(HarnessFailure::Toml(e)),
        Ok(raw) => build_recipe(raw),
    }
}

/// The canonical text of a recipe. The declared order of the steps is kept:
/// it is procedural, and sorting it would change the meaning.
pub open spec fn recipe_text(r: RecipeView) -> Seq<char> {
    int_line("schema"@, r.schema as nat) + text_line("id"@, r.id) + "\n[reconstruction]\n"@ + (if r.steps.len() > 0 {
        "steps = ["@ + recipe_list(r.steps) + "]\n"@
    } else {
        Seq::empty()
    }) + int_line("expected_overrides"@, r.expected_overrides as nat) + int_line(
        "expected_exclusions"@,
        r.expected_exclusions as nat,
    ) + rules_text(sorted_rules(r.rules))
}

/// Serialises a recipe in its canonical form.
pub fn render_recipe(recipe: &Recipe) -> (s: String)
    ensures
        s@ == recipe_text(recipe_view(*recipe)),
{
    let ghost rv = recipe_view(*recipe);
    let mut out: Vec<char> = Vec::new();
    push_int_line(&mut out, "schema", recipe.schema);
    push_text_line(&mut out, "id", recipe.id.as_str());
    push_str_chars(&mut out, "\n[reconstruction]\n");
    let ghost before_steps = out@;
    if recipe.steps.len() > 0 {
        push_str_chars(&mut out, "steps = [");
        push_recipes(&mut out, &recipe.steps);
        push_str_chars(&mut out, "]\n");
    }
    assert(out@ =~= before_steps + (if rv.steps.len() > 0 {
        "steps = ["@ + recipe_list(rv.steps) + "]\n"@
    } else {
        Seq::empty()
    }));
    push_int_line(&mut out, "expected_overrides", recipe.expected_overrides);
    push_int_line(&mut out, "expected_exclusions", recipe.expected_exclusions);
    push_sorted_rules(&mut out, &recipe.rules);
    assert(out@ =~= recipe_text(rv));
    string_from(&out)
}

impl Recipe {
    /// Canonical repository-relative path of the file of this recipe.
    pub fn relative_path(&self) -> (s: String)
        ensures
            s@ == RECIPES_DIR@ + self.id@ + ".toml"@,
    {
        let mut out: Vec<char> = Vec::new();
        push_str_chars(&mut out, RECIPES_DIR);
        push_str_chars(&mut out, self.id.as_str());
        push_str_chars(&mut out, ".toml");
        string_from(&out)
    }
}

/// Snapshots and recipes, in separate namespaces, each kept in the order of
/// its identifiers, with no identifier twice.
#[derive(Debug, Clone)]
pub struct Library {
    snapshots: Vec<ProjectionSnapshot>,
    recipes: Vec<Recipe>,
}

pub open spec fn ids_increasing(ids: Seq<Seq<char>>) -> bool {
    forall|i: int, j: int| 0 <= i < j < ids.len() ==> seq_lt(#[trigger] ids[i], #[trigger] ids[j])
}

impl Library {
    pub closed spec fn snapshot_views(self) -> Seq<SnapshotView> {
        Seq::new(self.snapshots@.len(), |i: int| snapshot_view(self.snapshots@[i]))
    }

    pub closed spec fn recipe_views(self) -> Seq<RecipeView> {
        Seq::new(self.recipes@.len(), |i: int| recipe_view(self.recipes@[i]))
    }

    pub open spec fn snapshot_id_view(self) -> Seq<Seq<char>> {
        self.snapshot_views().map_values(|s: SnapshotView| s.id)
    }

    pub open spec fn recipe_id_view(self) -> Seq<Seq<char>> {
        self.recipe_views().map_values(|r: RecipeView| r.id)
    }

    /// Each namespace in increasing order of identifiers, with none twice.
    pub open spec fn wf(self) -> bool {
        ids_increasing(self.snapshot_id_view()) && ids_increasing(self.recipe_id_view())
    }

    pub fn new() -> (l: Library)
        ensures
            l.wf(),
            l.snapshot_views() == Seq::<SnapshotView>::empty(),
            l.recipe_views() == Seq::<RecipeView>::empty(),
    {
        let l = Library { snapshots: Vec::new(), recipes: Vec::new() };
        assert(l.snapshot_views() =~= Seq::<SnapshotView>::empty());
        assert(l.recipe_views() =~= Seq::<RecipeView>::empty());
        l
    }
}

pub open spec fn snapshot_key() -> spec_fn(SnapshotView) -> Seq<char> {
    |v: SnapshotView| v.id
}

pub open spec fn recipe_key() -> spec_fn(RecipeView) -> Seq<char> {
    |v: RecipeView| v.id
}

/// Where `x` goes in increasing `ids`: the first position whose identifier
/// is not below it.
pub(crate) fn slot(ids: &Vec<Vec<char>>, x: &Vec<char>) -> (k: usize)
    requires
        ids_increasing(rows(ids@)),
    ensures
        k <= ids@.len(),
        forall|j: int| 0 <= j < k ==> seq_lt(#[trigger] rows(ids@)[j], x@),
        k < ids@.len() ==> !seq_lt(rows(ids@)[k as int], x@),
{
    let mut k: usize = 0;
    while k < ids.len() && crate::text::vec_lt(&ids[k], x)
        invariant
            k <= ids@.len(),
            forall|j: int| 0 <= j < k ==> seq_lt(#[trigger] rows(ids@)[j], x@),
        decreases ids.len() - k,
    {
        assert(rows(ids@)[k as int] == ids@[k as int]@);
        k = k + 1;
    }
    proof {
        if k < ids@.len() {
            assert(rows(ids@)[k as int] == ids@[k as int]@);
        }
    }
    k
}

pub(crate) proof fn lemma_insert_increasing(ids: Seq<Seq<char>>, k: int, x: Seq<char>)
    requires
        ids_increasing(ids),
        0 <= k <= ids.len(),
        forall|j: int| 0 <= j < k ==> seq_lt(#[trigger] ids[j], x),
        k < ids.len() ==> seq_lt(x, ids[k]),
    ensures
        ids_increasing(ids.insert(k, x)),
        !ids.contains(x),
{
    let t = ids.insert(k, x);
    assert forall|a: int, b: int| 0 <= a < b < t.len() implies seq_lt(#[trigger] t[a], #[trigger] t[b]) by {
        if b < k {
        } else if b == k {
        } else if a < k {
            assert(seq_lt(ids[a], x));
            assert(seq_lt(x, ids[k]));
            crate::text::lemma_seq_lt_trans(ids[a], x, ids[k]);
            if b - 1 > k {
                crate::text::lemma_seq_lt_trans(ids[a], ids[k], ids[b - 1]);
            }
        } else if a == k {
            if b - 1 > k {
                crate::text::lemma_seq_lt_trans(x, ids[k], ids[b - 1]);
            }
        } else {
        }
    }
    assert(!ids.contains(x)) by {
        if ids.contains(x) {
            let j = choose|j: int| 0 <= j < ids.len() && ids[j] == x;
            crate::text::lemma_seq_lt_irrefl_eq(x, x);
            if j < k {
            } else if j == k {
            } else {
                crate::text::lemma_seq_lt_trans(x, ids[k], ids[j]);
            }
        }
    }
}

/// Index of the first view with identifier `id`.
pub open spec fn find_snapshot(ss: Seq<SnapshotView>, id: Seq<char>, i: int) -> Option<int>
    decreases ss.len() - i,
{
    if i < 0 || i >= ss.len() {
        None
    } else if ss[i].id == id {
        Some(i)
    } else {
        find_snapshot(ss, id, i + 1)
    }
}

/// Index of the first view with identifier `id`.
pub open spec fn find_recipe(rs: Seq<RecipeView>, id: Seq<char>, i: int) -> Option<int>
    decreases rs.len() - i,
{
    if i < 0 || i >= rs.len() {
        None
    } else if rs[i].id == id {
        Some(i)
    } else {
        find_recipe(rs, id, i + 1)
    }
}

impl Library {
    fn snapshot_id_rows(&self) -> (v: Vec<Vec<char>>)
        ensures
            rows(v@) == self.snapshot_id_view(),
    {
        let mut v: Vec<Vec<char>> = Vec::new();
        let mut i: usize = 0;
        while i < self.snapshots.len()
            invariant
                i <= self.snapshots@.len(),
                v@.len() == i,
                forall|j: int| 0 <= j < i ==> #[trigger] v@[j]@ == self.snapshots@[j].id@,
            decreases self.snapshots.len() - i,
        {
            v.push(chars_of(self.snapshots[i].id.as_str()));
            i = i + 1;
        }
        assert(rows(v@) =~= self.snapshot_id_view());
        v
    }

    fn recipe_id_rows(&self) -> (v: Vec<Vec<char>>)
        ensures
            rows(v@) == self.recipe_id_view(),
    {
        let mut v: Vec<Vec<char>> = Vec::new();
        let mut i: usize = 0;
        while i < self.recipes.len()
            invariant
                i <= self.recipes@.len(),
                v@.len() == i,
                forall|j: int| 0 <= j < i ==> #[trigger] v@[j]@ == self.recipes@[j].id@,
            decreases self.recipes.len() - i,
        {
            v.push(chars_of(self.recipes[i].id.as_str()));
            i = i + 1;
        }
        assert(rows(v@) =~= self.recipe_id_view());
        v
    }

    /// Puts a snapshot in its place: it replaces the snapshot with its
    /// identifier, or goes where the order of identifiers puts it.
    pub(crate) fn put_snapshot(&mut self, snapshot: ProjectionSnapshot)
        requires
            old(self).wf(),
        ensures
            final(self).wf(),
            final(self).snapshot_views() == crate::nav_projection_store::put(
                old(self).snapshot_views(),
                snapshot_key(),
                snapshot_view(snapshot),
            ),
            final(self).recipe_views() == old(self).recipe_views(),
    {
        let ghost sv = self.snapshot_views();
        let ids = self.snapshot_id_rows();
        let x = chars_of(snapshot.id.as_str());
        let k = slot(&ids, &x);
        proof {
            assert(sv.map_values(snapshot_key()) =~= self.snapshot_id_view());
            crate::nav_projection_store::lemma_first_not_below(rows(ids@), x@, k as int, 0);
        }
        if k < ids.len() && crate::text::vec_eq(&ids[k], &x) {
            self.snapshots.set(k, snapshot);
            assert(self.snapshot_views() =~= sv.update(k as int, snapshot_view(snapshot)));
            assert(self.snapshot_id_view() =~= rows(ids@));
        } else {
            proof {
                if k < ids@.len() {
                    assert(rows(ids@)[k as int] == ids@[k as int]@);
                    crate::text::lemma_seq_lt_total(rows(ids@)[k as int], x@);
                }
                lemma_insert_increasing(rows(ids@), k as int, x@);
            }
            self.snapshots.insert(k, snapshot);
            assert(self.snapshot_views() =~= sv.insert(k as int, snapshot_view(snapshot)));
            assert(self.snapshot_id_view() =~= rows(ids@).insert(k as int, x@));
        }
    }

    /// Puts a recipe in its place: it replaces the recipe with its
    /// identifier, or goes where the order of identifiers puts it.
    pub(crate) fn put_recipe(&mut self, recipe: Recipe)
        requires
            old(self).wf(),
        ensures
            final(self).wf(),
            final(self).recipe_views() == crate::nav_projection_store::put(
                old(self).recipe_views(),
                recipe_key(),
                recipe_view(recipe),
            ),
            final(self).snapshot_views() == old(self).snapshot_views(),
    {
        let ghost rv = self.recipe_views();
        let ids = self.recipe_id_rows();
        let x = chars_of(recipe.id.as_str());
        let k = slot(&ids, &x);
        proof {
            assert(rv.map_values(recipe_key()) =~= self.recipe_id_view());
            crate::nav_projection_store::lemma_first_not_below(rows(ids@), x@, k as int, 0);
        }
        if k < ids.len() && crate::text::vec_eq(&ids[k], &x) {
            self.recipes.set(k, recipe);
            assert(self.recipe_views() =~= rv.update(k as int, recipe_view(recipe)));
            assert(self.recipe_id_view() =~= rows(ids@));
        } else {
            proof {
                if k < ids@.len() {
                    assert(rows(ids@)[k as int] == ids@[k as int]@);
                    crate::text::lemma_seq_lt_total(rows(ids@)[k as int], x@);
                }
                lemma_insert_increasing(rows(ids@), k as int, x@);
            }
            self.recipes.insert(k, recipe);
            assert(self.recipe_views() =~= rv.insert(k as int, recipe_view(recipe)));
            assert(self.recipe_id_view() =~= rows(ids@).insert(k as int, x@));
        }
    }

    /// Adds a snapshot. The same rule validator as in `parse` runs first, so a
    /// model built in memory cannot bypass it; then a repeated identifier is a
    /// harness failure.
    pub fn with_snapshot(self, snapshot: ProjectionSnapshot) -> (r: Result<Library, HarnessFailure>)
        requires
            self.wf(),
        ensures
            match rules_check(snapshot.schema, rules_view(snapshot.rules@), SchemaAuthority::Snapshot) {
                Err(f) => r matches Err(e) && failure_view(e) == f,
                Ok(()) => match r {
                    Err(e) => self.snapshot_id_view().contains(snapshot.id@) && failure_view(e)
                        == (FailureView::DuplicateSnapshot { id: snapshot.id@ }),
                    Ok(l) => !self.snapshot_id_view().contains(snapshot.id@) && l.wf()
                        && l.snapshot_views().to_multiset() == self.snapshot_views().to_multiset().insert(
                        snapshot_view(snapshot),
                    ) && l.recipe_views() == self.recipe_views(),
                },
            },
    {
        match validate_rules(snapshot.schema, snapshot.rules.as_slice(), SchemaAuthority::Snapshot) {
            Err(e) => Err(e),
            Ok(()) => self.insert_snapshot(snapshot),
        }
    }

    /// Adds a snapshot whose rules were already admitted at ingestion; a
    /// repeated identifier is a harness failure.
    pub(crate) fn insert_snapshot(self, snapshot: ProjectionSnapshot) -> (r: Result<Library, HarnessFailure>)
        requires
            self.wf(),
        ensures
            match r {
                Err(e) => self.snapshot_id_view().contains(snapshot.id@) && failure_view(e)
                    == (FailureView::DuplicateSnapshot { id: snapshot.id@ }),
                Ok(l) => !self.snapshot_id_view().contains(snapshot.id@) && l.wf()
                    && l.snapshot_views().to_multiset() == self.snapshot_views().to_multiset().insert(
                    snapshot_view(snapshot),
                ) && l.recipe_views() == self.recipe_views(),
            },
    {
        let ids = self.snapshot_id_rows();
        let x = chars_of(snapshot.id.as_str());
        let k = slot(&ids, &x);
        if k < ids.len() && crate::text::vec_eq(&ids[k], &x) {
            assert(rows(ids@)[k as int] == ids@[k as int]@);
            return Err(HarnessFailure::DuplicateSnapshot { id: snapshot.id.clone() });
        }
        proof {
            if k < ids@.len() {
                assert(rows(ids@)[k as int] == ids@[k as int]@);
                crate::text::lemma_seq_lt_total(rows(ids@)[k as int], x@);
            }
            lemma_insert_increasing(rows(ids@), k as int, x@);
        }
        let ghost old_views = self.snapshot_views();
        let mut lib = self;
        lib.snapshots.insert(k, snapshot);
        proof {
            broadcast use vstd::seq_lib::group_to_multiset_ensures;

            assert(lib.snapshot_views() =~= old_views.insert(k as int, snapshot_view(snapshot)));
            assert(lib.snapshot_id_view() =~= rows(ids@).insert(k as int, x@));
            assert(old_views.insert(k as int, snapshot_view(snapshot)) =~= old_views.take(k as int).push(
                snapshot_view(snapshot),
            ) + old_views.skip(k as int));
            vstd::seq_lib::lemma_multiset_commutative(
                old_views.take(k as int).push(snapshot_view(snapshot)),
                old_views.skip(k as int),
            );
            vstd::seq_lib::lemma_multiset_commutative(old_views.take(k as int), old_views.skip(k as int));
            assert(old_views.take(k as int) + old_views.skip(k as int) =~= old_views);
        }
        Ok(lib)
    }
}

impl Library {
    /// Adds a recipe. The recipe authority's rule validator runs first (a
    /// materialization is refused by name), so a recipe built in memory cannot
    /// bypass `parse_recipe`. Separate namespace: a snapshot with the same
    /// textual identifier does not collide.
    pub fn with_recipe(self, recipe: Recipe) -> (r: Result<Library, HarnessFailure>)
        requires
            self.wf(),
        ensures
            match rules_check(recipe.schema, rules_view(recipe.rules@), SchemaAuthority::Recipe) {
                Err(f) => r matches Err(e) && failure_view(e) == f,
                Ok(()) => match r {
                    Err(e) => self.recipe_id_view().contains(recipe.id@) && failure_view(e)
                        == (FailureView::DuplicateRecipe { id: recipe.id@ }),
                    Ok(l) => !self.recipe_id_view().contains(recipe.id@) && l.wf()
                        && l.recipe_views().to_multiset() == self.recipe_views().to_multiset().insert(
                        recipe_view(recipe),
                    ) && l.snapshot_views() == self.snapshot_views(),
                },
            },
    {
        match validate_rules(recipe.schema, recipe.rules.as_slice(), SchemaAuthority::Recipe) {
            Err(e) => Err(e),
            Ok(()) => self.insert_recipe(recipe),
        }
    }

    /// Adds a recipe whose rules were already admitted at ingestion.
    pub(crate) fn insert_recipe(self, recipe: Recipe) -> (r: Result<Library, HarnessFailure>)
        requires
            self.wf(),
        ensures
            match r {
                Err(e) => self.recipe_id_view().contains(recipe.id@) && failure_view(e)
                    == (FailureView::DuplicateRecipe { id: recipe.id@ }),
                Ok(l) => !self.recipe_id_view().contains(recipe.id@) && l.wf()
                    && l.recipe_views().to_multiset() == self.recipe_views().to_multiset().insert(
                    recipe_view(recipe),
                ) && l.snapshot_views() == self.snapshot_views(),
            },
    {
        let ids = self.recipe_id_rows();
        let x = chars_of(recipe.id.as_str());
        let k = slot(&ids, &x);
        if k < ids.len() && crate::text::vec_eq(&ids[k], &x) {
            assert(rows(ids@)[k as int] == ids@[k as int]@);
            return Err(HarnessFailure::DuplicateRecipe { id: recipe.id.clone() });
        }
        proof {
            if k < ids@.len() {
                assert(rows(ids@)[k as int] == ids@[k as int]@);
                crate::text::lemma_seq_lt_total(rows(ids@)[k as int], x@);
            }
            lemma_insert_increasing(rows(ids@), k as int, x@);
        }
        let ghost old_views = self.recipe_views();
        let mut lib = self;
        lib.recipes.insert(k, recipe);
        proof {
            broadcast use vstd::seq_lib::group_to_multiset_ensures;

            assert(lib.recipe_views() =~= old_views.insert(k as int, recipe_view(recipe)));
            assert(lib.recipe_id_view() =~= rows(ids@).insert(k as int, x@));
            assert(old_views.insert(k as int, recipe_view(recipe)) =~= old_views.take(k as int).push(
                recipe_view(recipe),
            ) + old_views.skip(k as int));
            vstd::seq_lib::lemma_multiset_commutative(
                old_views.take(k as int).push(recipe_view(recipe)),
                old_views.skip(k as int),
            );
            vstd::seq_lib::lemma_multiset_commutative(old_views.take(k as int), old_views.skip(k as int));
            assert(old_views.take(k as int) + old_views.skip(k as int) =~= old_views);
        }
        Ok(lib)
    }

    pub fn snapshot(&self, id: &str) -> (r: Option<&ProjectionSnapshot>)
        ensures
            match find_snapshot(self.snapshot_views(), id@, 0) {
                Some(k) => r matches Some(s) && snapshot_view(*s) == self.snapshot_views()[k],
                None => r is None,
            },
    {
        let ghost sv = self.snapshot_views();
        let mut i: usize = 0;
        while i < self.snapshots.len()
            invariant
                i <= self.snapshots@.len(),
                sv == self.snapshot_views(),
                find_snapshot(sv, id@, 0) == find_snapshot(sv, id@, i as int),
            decreases self.snapshots.len() - i,
        {
            assert(sv[i as int] == snapshot_view(self.snapshots@[i as int]));
            if crate::text::str_eq(self.snapshots[i].id.as_str(), id) {
                return Some(&self.snapshots[i]);
            }
            i = i + 1;
        }
        None
    }

    pub fn recipe(&self, id: &str) -> (r: Option<&Recipe>)
        ensures
            match find_recipe(self.recipe_views(), id@, 0) {
                Some(k) => r matches Some(x) && recipe_view(*x) == self.recipe_views()[k],
                None => r is None,
            },
    {
        let ghost rv = self.recipe_views();
        let mut i: usize = 0;
        while i < self.recipes.len()
            invariant
                i <= self.recipes@.len(),
                rv == self.recipe_views(),
                find_recipe(rv, id@, 0) == find_recipe(rv, id@, i as int),
            decreases self.recipes.len() - i,
        {
            assert(rv[i as int] == recipe_view(self.recipes@[i as int]));
            if crate::text::str_eq(self.recipes[i].id.as_str(), id) {
                return Some(&self.recipes[i]);
            }
            i = i + 1;
        }
        None
    }

    /// Snapshot identifiers, in their canonical order.
    pub fn snapshot_ids(&self) -> (v: Vec<&str>)
        ensures
            strs(v@) == self.snapshot_id_view(),
    {
        let mut v: Vec<&str> = Vec::new();
        let mut i: usize = 0;
        while i < self.snapshots.len()
            invariant
                i <= self.snapshots@.len(),
                v@.len() == i,
                forall|j: int| 0 <= j < i ==> #[trigger] v@[j]@ == self.snapshots@[j].id@,
            decreases self.snapshots.len() - i,
        {
            v.push(self.snapshots[i].id.as_str());
            i = i + 1;
        }
        assert(strs(v@) =~= self.snapshot_id_view());
        v
    }

    /// Recipe identifiers, in their canonical order.
    pub fn recipe_ids(&self) -> (v: Vec<&str>)
        ensures
            strs(v@) == self.recipe_id_view(),
    {
        let mut v: Vec<&str> = Vec::new();
        let mut i: usize = 0;
        while i < self.recipes.len()
            invariant
                i <= self.recipes@.len(),
                v@.len() == i,
                forall|j: int| 0 <= j < i ==> #[trigger] v@[j]@ == self.recipes@[j].id@,
            decreases self.recipes.len() - i,
        {
            v.push(self.recipes[i].id.as_str());
            i = i + 1;
        }
        assert(strs(v@) =~= self.recipe_id_view());
        v
    }
}

/// What one scope consumed: a base, a recipe or the local rules.
#[derive(Debug, Clone, PartialEq, Eq)]
pub struct ScopeConsumption {
    pub scope: String,
    pub entries: Vec<RuleConsumption>,
}

pub struct ScopeConsumptionView {
    pub scope: Seq<char>,
    pub entries: Seq<ConsumptionView>,
}

pub open spec fn scope_consumption_view(c: ScopeConsumption) -> ScopeConsumptionView {
    ScopeConsumptionView { scope: c.scope@, entries: ledger_view(c.entries@) }
}

pub open spec fn scopes_view(cs: Seq<ScopeConsumption>) -> Seq<ScopeConsumptionView> {
    cs.map_values(|c: ScopeConsumption| scope_consumption_view(c))
}

/// The result of a resolved composition.
#[derive(Debug, Clone, PartialEq, Eq)]
pub struct Composition {
    /// Regions of the rebuilt state.
    pub regions: Vec<ProjectionRegion>,
    /// Consumption per scope, in the order of application.
    pub ledger: Vec<ScopeConsumption>,
    /// Base snapshots verified during the resolution, deepest first.
    pub verified_bases: Vec<String>,
}

impl Composition {
    pub fn measures(&self) -> (m: Measures)
        ensures
            m == measures_spec(regions_view(self.regions@)),
    {
        let m = measure(self.regions.as_slice());
        assert(rows_view(self.regions@) =~= regions_view(self.regions@));
        m
    }
}

pub struct ResolvedView {
    pub regions: Seq<RegionView>,
    pub ledger: Seq<ScopeConsumptionView>,
    pub verified_bases: Seq<Seq<char>>,
}

pub open spec fn composition_view(c: Composition) -> ResolvedView {
    ResolvedView {
        regions: regions_view(c.regions@),
        ledger: scopes_view(c.ledger@),
        verified_bases: string_rows(c.verified_bases@),
    }
}

pub struct LibView {
    pub snapshots: Seq<SnapshotView>,
    pub recipes: Seq<RecipeView>,
}

pub open spec fn lib_view(l: Library) -> LibView {
    LibView { snapshots: l.snapshot_views(), recipes: l.recipe_views() }
}

pub open spec fn snapshot_mark(id: Seq<char>) -> Seq<char> {
    "snapshot:"@ + id
}

pub open spec fn recipe_mark(id: Seq<char>) -> Seq<char> {
    "recipe:"@ + id
}

/// Texts separated by an arrow.
pub open spec fn arrow_joined(vs: Seq<Seq<char>>) -> Seq<char>
    decreases vs.len(),
{
    if vs.len() == 0 {
        Seq::empty()
    } else {
        arrow_joined(vs.drop_last()) + (if vs.len() > 1 {
            " → "@
        } else {
            Seq::empty()
        }) + vs.last()
    }
}

pub open spec fn cycle_failure(visiting: Seq<Seq<char>>, mark: Seq<char>) -> FailureView {
    FailureView::CompositionCycle { path: arrow_joined(visiting.push(mark)) }
}

/// A recipe applied to `input`: its steps first, in the declared order,
/// then its own rules. `fuel` bounds the depth; every level adds a distinct
/// entry of the library to the path, so a library of `n` entries never
/// needs more than `n`.
pub open spec fn res_recipe(
    lv: LibView,
    id: Seq<char>,
    input: Seq<RegionView>,
    visiting: Seq<Seq<char>>,
    fuel: nat,
) -> Result<(Seq<RegionView>, Seq<ScopeConsumptionView>), FailureView>
    decreases fuel, 0int, 0int,
{
    let mark = recipe_mark(id);
    if visiting.contains(mark) {
        Err(cycle_failure(visiting, mark))
    } else {
        match find_recipe(lv.recipes, id, 0) {
            None => Err(FailureView::RecipeMissing { id }),
            Some(k) => if fuel == 0 {
                Err(cycle_failure(visiting, mark))
            } else {
                let r = lv.recipes[k];
                match res_steps(lv, r.steps, input, visiting.push(mark), (fuel - 1) as nat, 0) {
                    Err(e) => Err(e),
                    Ok((rs, led)) => match applied(rs, r.rules) {
                        Err(e) => Err(e),
                        Ok((out, entries)) => Ok(
                            (out, led.push(ScopeConsumptionView { scope: mark, entries })),
                        ),
                    },
                }
            },
        }
    }
}

/// The recipes `ids` from position `i` on, applied in order.
pub open spec fn res_steps(
    lv: LibView,
    ids: Seq<Seq<char>>,
    input: Seq<RegionView>,
    visiting: Seq<Seq<char>>,
    fuel: nat,
    i: int,
) -> Result<(Seq<RegionView>, Seq<ScopeConsumptionView>), FailureView>
    decreases fuel, 1int, ids.len() - i,
{
    if i < 0 || i >= ids.len() {
        Ok((input, Seq::empty()))
    } else {
        match res_recipe(lv, ids[i], input, visiting, fuel) {
            Err(e) => Err(e),
            Ok((rs, led)) => match res_steps(lv, ids, rs, visiting, fuel, i + 1) {
                Err(e) => Err(e),
                Ok((out, rest)) => Ok((out, led + rest)),
            },
        }
    }
}

/// The composition of a snapshot: its base, resolved and checked against
/// its own measures; its recipes, in order; its local rules.
pub open spec fn res_snapshot(
    lv: LibView,
    id: Seq<char>,
    catalog: Seq<RegionView>,
    visiting: Seq<Seq<char>>,
    fuel: nat,
) -> Result<ResolvedView, FailureView>
    decreases fuel, 2int, 0int,
{
    let mark = snapshot_mark(id);
    if visiting.contains(mark) {
        Err(cycle_failure(visiting, mark))
    } else {
        match find_snapshot(lv.snapshots, id, 0) {
            None => Err(FailureView::BaseSnapshotMissing { id }),
            Some(k) => if fuel == 0 {
                Err(cycle_failure(visiting, mark))
            } else {
                let s = lv.snapshots[k];
                let vis = visiting.push(mark);
                let base: Result<ResolvedView, FailureView> = match s.base_snapshot {
                    None => Ok(ResolvedView { regions: catalog, ledger: Seq::empty(), verified_bases: Seq::empty() }),
                    Some(b) => match res_snapshot(lv, b, catalog, vis, (fuel - 1) as nat) {
                        Err(e) => Err(e),
                        Ok(c) => {
                            let expected = lv.snapshots[find_snapshot(lv.snapshots, b, 0)->0].measures;
                            let observed = measures_spec(c.regions);
                            if observed != expected {
                                Err(FailureView::BaseMeasuresDiverged { id: b, expected, observed })
                            } else {
                                Ok(
                                    ResolvedView {
                                        regions: c.regions,
                                        ledger: c.ledger,
                                        verified_bases: c.verified_bases.push(b),
                                    },
                                )
                            }
                        },
                    },
                };
                match base {
                    Err(e) => Err(e),
                    Ok(bv) => match res_steps(lv, s.recipes, bv.regions, vis, (fuel - 1) as nat, 0) {
                        Err(e) => Err(e),
                        Ok((rs, led)) => match applied(rs, s.rules) {
                            Err(e) => Err(e),
                            Ok((out, entries)) => Ok(
                                ResolvedView {
                                    regions: out,
                                    ledger: bv.ledger + led + seq![ScopeConsumptionView { scope: mark, entries }],
                                    verified_bases: bv.verified_bases,
                                },
                            ),
                        },
                    },
                }
            },
        }
    }
}

/// The depth bound of a library: one more than its entries.
pub open spec fn depth_bound(lv: LibView) -> nat {
    let n = lv.snapshots.len() + lv.recipes.len() + 1;
    if n > usize::MAX {
        usize::MAX as nat
    } else {
        n
    }
}

/// A snapshot over a base is only composed on a base that reproduces the
/// base's declared measures: when the base's composition (in the chain that
/// reaches it) yields other measures, the snapshot is refused with both
/// measures; when it reproduces them, the base is recorded as verified, last.
/// An unknown snapshot is a missing base.
#[verifier::spinoff_prover]
pub proof fn law_base_measures_checked(
    lv: LibView,
    id: Seq<char>,
    catalog: Seq<RegionView>,
    visiting: Seq<Seq<char>>,
    fuel: nat,
)
    ensures
        !visiting.contains(snapshot_mark(id)) && find_snapshot(lv.snapshots, id, 0) is None ==> res_snapshot(
            lv,
            id,
            catalog,
            visiting,
            fuel,
        ) == Err::<ResolvedView, FailureView>(FailureView::BaseSnapshotMissing { id }),
        ({
            let k = find_snapshot(lv.snapshots, id, 0)->0;
            let b = lv.snapshots[k].base_snapshot->0;
            let c = res_snapshot(lv, b, catalog, visiting.push(snapshot_mark(id)), (fuel - 1) as nat);
            let expected = lv.snapshots[find_snapshot(lv.snapshots, b, 0)->0].measures;
            (!visiting.contains(snapshot_mark(id)) && find_snapshot(lv.snapshots, id, 0) is Some && fuel > 0
                && lv.snapshots[k].base_snapshot is Some && c is Ok && measures_spec(c->Ok_0.regions) != expected)
                ==> res_snapshot(lv, id, catalog, visiting, fuel) == Err::<ResolvedView, FailureView>(
                FailureView::BaseMeasuresDiverged { id: b, expected, observed: measures_spec(c->Ok_0.regions) },
            )
        }),
        ({
            let k = find_snapshot(lv.snapshots, id, 0)->0;
            let b = lv.snapshots[k].base_snapshot->0;
            let c = res_snapshot(lv, b, catalog, visiting.push(snapshot_mark(id)), (fuel - 1) as nat);
            let r = res_snapshot(lv, id, catalog, visiting, fuel);
            (!visiting.contains(snapshot_mark(id)) && find_snapshot(lv.snapshots, id, 0) is Some && fuel > 0
                && lv.snapshots[k].base_snapshot is Some && r is Ok) ==> (c is Ok && r->Ok_0.verified_bases
                == c->Ok_0.verified_bases.push(b))
        }),
{
}

/// The same law on [`resolve`] itself: resolving a snapshot over a base
/// resolves the base in the chain that starts at the snapshot; a base whose
/// composition yields other measures than it declares refuses the snapshot
/// with both measures, one that reproduces them is recorded last among the
/// verified bases, and an unknown snapshot is a missing base.
pub proof fn law_resolve_base_measures(lv: LibView, id: Seq<char>, catalog: Seq<RegionView>)
    ensures
        find_snapshot(lv.snapshots, id, 0) is None ==> resolved(lv, id, catalog) == Err::<ResolvedView, FailureView>(
            FailureView::BaseSnapshotMissing { id },
        ),
        ({
            let k = find_snapshot(lv.snapshots, id, 0)->0;
            let b = lv.snapshots[k].base_snapshot->0;
            let c = res_snapshot(lv, b, catalog, seq![snapshot_mark(id)], (depth_bound(lv) - 1) as nat);
            let expected = lv.snapshots[find_snapshot(lv.snapshots, b, 0)->0].measures;
            (find_snapshot(lv.snapshots, id, 0) is Some && lv.snapshots[k].base_snapshot is Some && c is Ok
                && measures_spec(c->Ok_0.regions) != expected) ==> resolved(lv, id, catalog) == Err::<
                ResolvedView,
                FailureView,
            >(FailureView::BaseMeasuresDiverged { id: b, expected, observed: measures_spec(c->Ok_0.regions) })
        }),
        ({
            let k = find_snapshot(lv.snapshots, id, 0)->0;
            let b = lv.snapshots[k].base_snapshot->0;
            let c = res_snapshot(lv, b, catalog, seq![snapshot_mark(id)], (depth_bound(lv) - 1) as nat);
            let r = resolved(lv, id, catalog);
            (find_snapshot(lv.snapshots, id, 0) is Some && lv.snapshots[k].base_snapshot is Some && r is Ok) ==> (
            c is Ok && r->Ok_0.verified_bases == c->Ok_0.verified_bases.push(b))
        }),
{
    let e = Seq::<Seq<char>>::empty();
    assert(e.push(snapshot_mark(id)) =~= seq![snapshot_mark(id)]);
    assert(!e.contains(snapshot_mark(id)));
    assert(depth_bound(lv) > 0);
    law_base_measures_checked(lv, id, catalog, e, depth_bound(lv));
}

/// The composition of snapshot `id` over `catalog`.
pub open spec fn resolved(lv: LibView, id: Seq<char>, catalog: Seq<RegionView>) -> Result<ResolvedView, FailureView> {
    res_snapshot(lv, id, catalog, Seq::empty(), depth_bound(lv))
}

fn mark_text(prefix: &str, id: &str) -> (s: String)
    ensures
        s@ == prefix@ + id@,
{
    let mut v: Vec<char> = Vec::new();
    push_str_chars(&mut v, prefix);
    push_str_chars(&mut v, id);
    string_from(&v)
}

fn listed_string(vs: &Vec<String>, x: &String) -> (b: bool)
    ensures
        b == string_rows(vs@).contains(x@),
{
    let mut i: usize = 0;
    while i < vs.len()
        invariant
            i <= vs@.len(),
            forall|j: int| 0 <= j < i ==> string_rows(vs@)[j] != x@,
        decreases vs.len() - i,
    {
        if crate::text::str_eq(vs[i].as_str(), x.as_str()) {
            assert(string_rows(vs@)[i as int] == x@);
            return true;
        }
        i = i + 1;
    }
    assert(!string_rows(vs@).contains(x@)) by {
        if string_rows(vs@).contains(x@) {
            let j = choose|j: int| 0 <= j < string_rows(vs@).len() && string_rows(vs@)[j] == x@;
            assert(string_rows(vs@)[j] != x@);
        }
    }
    false
}

/// The path of a cycle: the marks visited, then the repeated one.
fn cycle_path(visiting: &Vec<String>, mark: &String) -> (s: String)
    ensures
        s@ == arrow_joined(string_rows(visiting@).push(mark@)),
{
    let ghost vs = string_rows(visiting@);
    let ghost all = vs.push(mark@);
    let mut out: Vec<char> = Vec::new();
    let mut i: usize = 0;
    assert(vs.take(0) =~= Seq::<Seq<char>>::empty());
    while i < visiting.len()
        invariant
            i <= visiting@.len(),
            vs == string_rows(visiting@),
            out@ == arrow_joined(vs.take(i as int)),
        decreases visiting@.len() - i,
    {
        assert(vs.take(i + 1).drop_last() =~= vs.take(i as int));
        assert(vs[i as int] == visiting@[i as int]@);
        if i > 0 {
            push_str_chars(&mut out, " → ");
        }
        push_str_chars(&mut out, visiting[i].as_str());
        assert(out@ =~= arrow_joined(vs.take(i + 1)));
        i = i + 1;
    }
    assert(vs.take(i as int) =~= vs);
    assert(all.drop_last() =~= vs);
    if visiting.len() > 0 {
        push_str_chars(&mut out, " → ");
    }
    push_str_chars(&mut out, mark.as_str());
    assert(out@ =~= arrow_joined(all));
    string_from(&out)
}

fn resolve_recipe(
    library: &Library,
    recipe_id: &str,
    input: Vec<ProjectionRegion>,
    visiting: &mut Vec<String>,
    fuel: usize,
) -> (r: Result<(Vec<ProjectionRegion>, Vec<ScopeConsumption>), HarnessFailure>)
    ensures
        match res_recipe(lib_view(*library), recipe_id@, regions_view(input@), string_rows(old(visiting)@), fuel as nat) {
            Ok((rs, led)) => r matches Ok((x, l)) && regions_view(x@) == rs && scopes_view(l@) == led
                && string_rows(final(visiting)@) == string_rows(old(visiting)@),
            Err(f) => r matches Err(e) && failure_view(e) == f,
        },
    decreases fuel, 0int,
{
    let ghost lv = lib_view(*library);
    let ghost v0 = string_rows(visiting@);
    let mark = mark_text("recipe:", recipe_id);
    if listed_string(visiting, &mark) {
        return Err(HarnessFailure::CompositionCycle { path: cycle_path(visiting, &mark) });
    }
    let recipe = match library.recipe(recipe_id) {
        Some(x) => x,
        None => {
            return Err(HarnessFailure::RecipeMissing { id: owned(recipe_id) });
        },
    };
    if fuel == 0 {
        return Err(HarnessFailure::CompositionCycle { path: cycle_path(visiting, &mark) });
    }
    let scope = mark.clone();
    visiting.push(mark);
    assert(string_rows(visiting@) =~= v0.push(recipe_mark(recipe_id@)));
    let (regions, mut ledger) = resolve_steps(library, &recipe.steps, input, visiting, fuel - 1)?;
    let (regions, entries) = apply_rules(regions, recipe.rules.as_slice())?;
    let ghost before = scopes_view(ledger@);
    ledger.push(ScopeConsumption { scope, entries });
    assert(scopes_view(ledger@) =~= before.push(
        ScopeConsumptionView { scope: recipe_mark(recipe_id@), entries: ledger_view(entries@) },
    ));
    let ghost pre = visiting@;
    visiting.pop();
    assert(string_rows(visiting@) =~= string_rows(pre).drop_last());
    Ok((regions, ledger))
}

fn resolve_steps(
    library: &Library,
    ids: &Vec<String>,
    input: Vec<ProjectionRegion>,
    visiting: &mut Vec<String>,
    fuel: usize,
) -> (r: Result<(Vec<ProjectionRegion>, Vec<ScopeConsumption>), HarnessFailure>)
    ensures
        match res_steps(
            lib_view(*library),
            string_rows(ids@),
            regions_view(input@),
            string_rows(old(visiting)@),
            fuel as nat,
            0,
        ) {
            Ok((rs, led)) => r matches Ok((x, l)) && regions_view(x@) == rs && scopes_view(l@) == led
                && string_rows(final(visiting)@) == string_rows(old(visiting)@),
            Err(f) => r matches Err(e) && failure_view(e) == f,
        },
    decreases fuel, 1int,
{
    let ghost lv = lib_view(*library);
    let ghost v0 = string_rows(visiting@);
    let ghost iv = string_rows(ids@);
    let ghost start = regions_view(input@);
    let mut regions = input;
    let mut ledger: Vec<ScopeConsumption> = Vec::new();
    let mut i: usize = 0;
    proof {
        assert(scopes_view(ledger@) =~= Seq::<ScopeConsumptionView>::empty());
        match res_steps(lv, iv, start, v0, fuel as nat, 0) {
            Ok((out, rest)) => {
                assert(scopes_view(ledger@) + rest =~= rest);
            },
            Err(_) => {},
        }
    }
    while i < ids.len()
        invariant
            i <= ids@.len(),
            lv == lib_view(*library),
            iv == string_rows(ids@),
            string_rows(visiting@) == v0,
            v0 == string_rows(old(visiting)@),
            start == regions_view(input@),
            res_steps(lv, iv, start, v0, fuel as nat, 0) == (match res_steps(
                lv,
                iv,
                regions_view(regions@),
                v0,
                fuel as nat,
                i as int,
            ) {
                Ok((out, rest)) => Ok((out, scopes_view(ledger@) + rest)),
                Err(e) => Err(e),
            }),
        decreases ids.len() - i,
    {
        assert(iv[i as int] == ids@[i as int]@);
        let ghost cur = regions_view(regions@);
        let ghost led0 = scopes_view(ledger@);
        assert(res_steps(lv, iv, cur, v0, fuel as nat, i as int) == match res_recipe(lv, iv[i as int], cur, v0, fuel as nat) {
            Err(e) => Err(e),
            Ok((rs, led)) => match res_steps(lv, iv, rs, v0, fuel as nat, i + 1) {
                Err(e) => Err(e),
                Ok((out, rest)) => Ok((out, led + rest)),
            },
        });
        let res = resolve_recipe(library, ids[i].as_str(), regions, visiting, fuel);
        let (next, more) = match res {
            Ok(x) => x,
            Err(e) => {
                assert(res_recipe(lv, iv[i as int], cur, v0, fuel as nat) == Err::<
                    (Seq<RegionView>, Seq<ScopeConsumptionView>),
                    FailureView,
                >(failure_view(e)));
                assert(res_steps(lv, iv, start, v0, fuel as nat, 0) == Err::<
                    (Seq<RegionView>, Seq<ScopeConsumptionView>),
                    FailureView,
                >(failure_view(e)));
                return Err(e);
            },
        };
        let ghost before = ledger@;
        let ghost added = more@;
        let mut more = more;
        ledger.append(&mut more);
        assert(ledger@ == before + added);
        assert(scopes_view(ledger@) =~= scopes_view(before) + scopes_view(added));
        proof {
            match res_steps(lv, iv, regions_view(next@), v0, fuel as nat, i + 1) {
                Ok((out, rest)) => {
                    assert(led0 + (scopes_view(added) + rest) =~= scopes_view(ledger@) + rest);
                },
                Err(_) => {},
            }
        }
        regions = next;
        i = i + 1;
    }
    proof {
        assert(scopes_view(ledger@) + Seq::<ScopeConsumptionView>::empty() =~= scopes_view(ledger@));
    }
    Ok((regions, ledger))
}

fn catalog_regions(catalog: &[CodeRegion]) -> (r: Vec<ProjectionRegion>)
    ensures
        regions_view(r@) == code_regions_view(catalog@),
{
    let mut r: Vec<ProjectionRegion> = Vec::new();
    let mut i: usize = 0;
    while i < catalog.len()
        invariant
            i <= catalog@.len(),
            regions_view(r@) == code_regions_view(catalog@.take(i as int)),
        decreases catalog.len() - i,
    {
        let ghost before = regions_view(r@);
        let p = ProjectionRegion::from_region(&catalog[i]);
        r.push(p);
        assert(regions_view(r@) =~= before.push(code_region_view(catalog@[i as int])));
        assert(code_regions_view(catalog@.take(i + 1)) =~= code_regions_view(catalog@.take(i as int)).push(
            code_region_view(catalog@[i as int]),
        ));
        i = i + 1;
    }
    assert(catalog@.take(i as int) =~= catalog@);
    r
}

proof fn lemma_resolved_exists(lv: LibView, id: Seq<char>, catalog: Seq<RegionView>, visiting: Seq<Seq<char>>, fuel: nat)
    requires
        res_snapshot(lv, id, catalog, visiting, fuel) is Ok,
    ensures
        find_snapshot(lv.snapshots, id, 0) is Some,
{
}

#[verifier::rlimit(80)]
fn resolve_snapshot(
    library: &Library,
    snapshot_id: &str,
    catalog: &[CodeRegion],
    visiting: &mut Vec<String>,
    fuel: usize,
) -> (r: Result<Composition, HarnessFailure>)
    ensures
        match res_snapshot(
            lib_view(*library),
            snapshot_id@,
            code_regions_view(catalog@),
            string_rows(old(visiting)@),
            fuel as nat,
        ) {
            Ok(c) => r matches Ok(x) && composition_view(x) == c && string_rows(final(visiting)@) == string_rows(
                old(visiting)@,
            ),
            Err(f) => r matches Err(e) && failure_view(e) == f,
        },
    decreases fuel,
{
    let ghost lv = lib_view(*library);
    let ghost v0 = string_rows(visiting@);
    let ghost cat = code_regions_view(catalog@);
    let mark = mark_text("snapshot:", snapshot_id);
    if listed_string(visiting, &mark) {
        return Err(HarnessFailure::CompositionCycle { path: cycle_path(visiting, &mark) });
    }
    let snapshot = match library.snapshot(snapshot_id) {
        Some(x) => x,
        None => {
            return Err(HarnessFailure::BaseSnapshotMissing { id: owned(snapshot_id) });
        },
    };
    if fuel == 0 {
        return Err(HarnessFailure::CompositionCycle { path: cycle_path(visiting, &mark) });
    }
    let ghost sv = snapshot_view(*snapshot);
    let ghost vis = v0.push(snapshot_mark(snapshot_id@));
    let scope = mark.clone();
    visiting.push(mark);
    assert(string_rows(visiting@) =~= vis);
    let mut regions: Vec<ProjectionRegion>;
    let mut ledger: Vec<ScopeConsumption>;
    let mut verified_bases: Vec<String>;
    match &snapshot.base_snapshot {
        None => {
            regions = catalog_regions(catalog);
            ledger = Vec::new();
            verified_bases = Vec::new();
            assert(scopes_view(ledger@) =~= Seq::<ScopeConsumptionView>::empty());
            assert(string_rows(verified_bases@) =~= Seq::<Seq<char>>::empty());
        },
        Some(base_id) => {
            let base = resolve_snapshot(library, base_id.as_str(), catalog, visiting, fuel - 1)?;
            proof {
                lemma_resolved_exists(lv, base_id@, cat, vis, (fuel - 1) as nat);
            }
            let base_snapshot = match library.snapshot(base_id.as_str()) {
                Some(b) => b,
                None => {
                    proof {
                        assert(false);
                    }
                    return Err(HarnessFailure::BaseSnapshotMissing { id: base_id.clone() });
                },
            };
            let observed = base.measures();
            if observed != base_snapshot.measures {
                return Err(
                    HarnessFailure::BaseMeasuresDiverged {
                        id: base_id.clone(),
                        expected: base_snapshot.measures,
                        observed,
                    },
                );
            }
            regions = base.regions;
            ledger = base.ledger;
            verified_bases = base.verified_bases;
            let ghost vb = string_rows(verified_bases@);
            verified_bases.push(base_id.clone());
            assert(string_rows(verified_bases@) =~= vb.push(base_id@));
        },
    }
    let ghost bledger = scopes_view(ledger@);
    let (next, more) = resolve_steps(library, &snapshot.recipes, regions, visiting, fuel - 1)?;
    let ghost before = ledger@;
    let ghost added = more@;
    let mut more = more;
    ledger.append(&mut more);
    assert(scopes_view(ledger@) =~= scopes_view(before) + scopes_view(added));
    let (out, entries) = apply_rules(next, snapshot.rules.as_slice())?;
    let ghost mid = scopes_view(ledger@);
    ledger.push(ScopeConsumption { scope, entries });
    assert(scopes_view(ledger@) =~= mid.push(
        ScopeConsumptionView { scope: snapshot_mark(snapshot_id@), entries: ledger_view(entries@) },
    ));
    let ghost pre = visiting@;
    visiting.pop();
    assert(string_rows(visiting@) =~= string_rows(pre).drop_last());
    let c = Composition { regions: out, ledger, verified_bases };
    assert(composition_view(c).ledger =~= bledger + scopes_view(added) + seq![
        ScopeConsumptionView { scope: snapshot_mark(snapshot_id@), entries: ledger_view(entries@) },
    ]);
    Ok(c)
}

fn depth_bound_exec(library: &Library) -> (n: usize)
    ensures
        n as nat == depth_bound(lib_view(*library)),
{
    let a = library.snapshots.len();
    let b = library.recipes.len();
    if a > usize::MAX - 1 || b > usize::MAX - 1 - a {
        usize::MAX
    } else {
        a + b + 1
    }
}

/// Resolves and verifies the reconstruction of a snapshot. The order of
/// application is fixed: the base, resolved recursively and checked against
/// its own frozen measures; the recipes, in the declared order, each
/// resolving its own steps before its own rules; the local exclusions; the
/// local overrides.
pub fn resolve(library: &Library, snapshot_id: &str, catalog: &[CodeRegion]) -> (r: Result<
    Composition,
    HarnessFailure,
>)
    ensures
        match resolved(lib_view(*library), snapshot_id@, code_regions_view(catalog@)) {
            Ok(c) => r matches Ok(x) && composition_view(x) == c,
            Err(f) => r matches Err(e) && failure_view(e) == f,
        },
{
    let mut visiting: Vec<String> = Vec::new();
    assert(string_rows(visiting@) =~= Seq::<Seq<char>>::empty());
    let fuel = depth_bound_exec(library);
    resolve_snapshot(library, snapshot_id, catalog, &mut visiting, fuel)
}

/// The base chain of frozen snapshot `frozen` from `cur` on: every base
/// exists, none is a candidate, none repeats.
pub open spec fn chain_from(
    ss: Seq<SnapshotView>,
    frozen: Seq<char>,
    cur: Option<Seq<char>>,
    visited: Seq<Seq<char>>,
    fuel: nat,
) -> Result<(), FailureView>
    decreases fuel,
{
    match cur {
        None => Ok(()),
        Some(b) => if visited.contains(b) {
            Err(FailureView::CompositionCycle { path: arrow_joined(visited.push(b)) })
        } else {
            match find_snapshot(ss, b, 0) {
                None => Err(FailureView::BaseSnapshotMissing { id: b }),
                Some(k) => if ss[k].state == SnapshotState::Candidate {
                    Err(FailureView::FrozenDependsOnCandidate { frozen, candidate: b })
                } else if fuel == 0 {
                    Err(FailureView::CompositionCycle { path: arrow_joined(visited.push(b)) })
                } else {
                    chain_from(ss, frozen, ss[k].base_snapshot, visited.push(b), (fuel - 1) as nat)
                },
            }
        },
    }
}

/// No frozen snapshot depends, directly or transitively, on a candidate.
pub open spec fn dependencies_of(lv: LibView, id: Seq<char>) -> Result<(), FailureView> {
    match find_snapshot(lv.snapshots, id, 0) {
        None => Err(FailureView::BaseSnapshotMissing { id }),
        Some(k) => if lv.snapshots[k].state != SnapshotState::Frozen {
            Ok(())
        } else {
            chain_from(lv.snapshots, id, lv.snapshots[k].base_snapshot, seq![id], depth_bound(lv))
        },
    }
}

/// The snapshot reached from `cur` by following `n` base links, if every
/// link on the way names a stored snapshot.
pub open spec fn nth_base(ss: Seq<SnapshotView>, cur: Option<Seq<char>>, n: nat) -> Option<Seq<char>>
    decreases n,
{
    if n == 0 {
        cur
    } else {
        match cur {
            None => None,
            Some(b) => match find_snapshot(ss, b, 0) {
                None => None,
                Some(k) => nth_base(ss, ss[k].base_snapshot, (n - 1) as nat),
            },
        }
    }
}

proof fn lemma_chain_frozen(
    ss: Seq<SnapshotView>,
    frozen: Seq<char>,
    cur: Option<Seq<char>>,
    visited: Seq<Seq<char>>,
    fuel: nat,
    n: nat,
)
    requires
        chain_from(ss, frozen, cur, visited, fuel) is Ok,
    ensures
        nth_base(ss, cur, n) matches Some(b) ==> (find_snapshot(ss, b, 0) matches Some(k) && ss[k].state
            == SnapshotState::Frozen),
    decreases n,
{
    match cur {
        None => {
            if n > 0 {
                assert(nth_base(ss, cur, n) is None);
            }
        },
        Some(b) => {
            let k = find_snapshot(ss, b, 0)->0;
            assert(find_snapshot(ss, b, 0) is Some);
            assert(ss[k].state != SnapshotState::Candidate);
            if n > 0 {
                lemma_chain_frozen(ss, frozen, ss[k].base_snapshot, visited.push(b), (fuel - 1) as nat, (n - 1) as nat);
            }
        },
    }
}

/// A frozen snapshot whose dependencies pass depends on no candidate, even
/// transitively: every snapshot reached from it through one or more base
/// links is stored and FROZEN.
pub proof fn law_dependencies_transitive(lv: LibView, id: Seq<char>, n: nat)
    requires
        dependencies_of(lv, id) is Ok,
        find_snapshot(lv.snapshots, id, 0) matches Some(k) && lv.snapshots[k].state == SnapshotState::Frozen,
    ensures
        ({
            let k = find_snapshot(lv.snapshots, id, 0)->0;
            nth_base(lv.snapshots, lv.snapshots[k].base_snapshot, n) matches Some(b) ==> (find_snapshot(
                lv.snapshots,
                b,
                0,
            ) matches Some(j) && lv.snapshots[j].state == SnapshotState::Frozen)
        }),
{
    let k = find_snapshot(lv.snapshots, id, 0)->0;
    lemma_chain_frozen(lv.snapshots, id, lv.snapshots[k].base_snapshot, seq![id], depth_bound(lv), n);
}

/// The dependency policy case by case: an unknown target is a missing base;
/// a candidate target has nothing to check; a frozen target with no base is
/// fine; a frozen target naming itself as base closes a cycle; a frozen
/// target whose base is unknown names that base as missing; and a frozen
/// target whose base `b` is a candidate depends on a candidate.
#[verifier::spinoff_prover]
pub proof fn law_dependency_cases(lv: LibView, id: Seq<char>, b: Seq<char>)
    ensures
        find_snapshot(lv.snapshots, id, 0) is None ==> dependencies_of(lv, id) == Err::<(), FailureView>(
            FailureView::BaseSnapshotMissing { id },
        ),
        find_snapshot(lv.snapshots, id, 0) matches Some(k) && lv.snapshots[k].state
            == SnapshotState::Candidate ==> dependencies_of(lv, id) == Ok::<(), FailureView>(()),
        find_snapshot(lv.snapshots, id, 0) matches Some(k) && lv.snapshots[k].state
            == SnapshotState::Frozen && lv.snapshots[k].base_snapshot is None ==> dependencies_of(lv, id) == Ok::<
            (),
            FailureView,
        >(()),
        find_snapshot(lv.snapshots, id, 0) matches Some(k) && lv.snapshots[k].state
            == SnapshotState::Frozen && lv.snapshots[k].base_snapshot == Some(id) ==> dependencies_of(lv, id) is Err
            && dependencies_of(lv, id)->Err_0 is CompositionCycle,
        find_snapshot(lv.snapshots, id, 0) matches Some(k) && (lv.snapshots[k].state == SnapshotState::Frozen
            && lv.snapshots[k].base_snapshot == Some(b) && b != id && find_snapshot(lv.snapshots, b, 0) is None)
            ==> dependencies_of(lv, id) == Err::<(), FailureView>(FailureView::BaseSnapshotMissing { id: b }),
        find_snapshot(lv.snapshots, id, 0) matches Some(k) && (lv.snapshots[k].state == SnapshotState::Frozen
            && lv.snapshots[k].base_snapshot == Some(b) && b != id && find_snapshot(lv.snapshots, b, 0) is Some
            && lv.snapshots[find_snapshot(lv.snapshots, b, 0)->0].state == SnapshotState::Candidate)
            ==> dependencies_of(lv, id) == Err::<(), FailureView>(
            FailureView::FrozenDependsOnCandidate { frozen: id, candidate: b },
        ),
{
    match find_snapshot(lv.snapshots, id, 0) {
        None => {},
        Some(k) => {
            let v: Seq<Seq<char>> = seq![id];
            assert(v[0] == id);
            assert(v.contains(id));
            match lv.snapshots[k].base_snapshot {
                Some(c) => {
                    if c != id {
                        assert(!v.contains(c)) by {
                            if v.contains(c) {
                                let i = choose|i: int| 0 <= i < v.len() && v[i] == c;
                                assert(v[i] == id);
                            }
                        }
                    }
                },
                None => {},
            }
        },
    }
}

/// Checks the dependency policy for one target and its chain.
pub fn verify_snapshot_dependencies(library: &Library, id: &str) -> (r: Result<(), HarnessFailure>)
    ensures
        result_unit_view(r) == dependencies_of(lib_view(*library), id@),
{
    let ghost lv = lib_view(*library);
    let snapshot = match library.snapshot(id) {
        Some(s) => s,
        None => {
            return Err(HarnessFailure::BaseSnapshotMissing { id: owned(id) });
        },
    };
    if snapshot.state != SnapshotState::Frozen {
        return Ok(());
    }
    let mut current: Option<String> = crate::nav_projection_snapshot::clone_opt(&snapshot.base_snapshot);
    let mut visited: Vec<String> = Vec::new();
    visited.push(owned(id));
    let mut fuel = depth_bound_exec(library);
    assert(string_rows(visited@) =~= seq![id@]);
    while current.is_some()
        invariant
            lv == lib_view(*library),
            dependencies_of(lv, id@) == chain_from(
                lv.snapshots,
                id@,
                crate::nav_projection_snapshot::opt_view(current),
                string_rows(visited@),
                fuel as nat,
            ),
        decreases fuel,
    {
        let base_id = match current {
            Some(b) => b,
            None => {
                return Ok(());
            },
        };
        if listed_string(&visited, &base_id) {
            return Err(HarnessFailure::CompositionCycle { path: cycle_path(&visited, &base_id) });
        }
        let base = match library.snapshot(base_id.as_str()) {
            Some(b) => b,
            None => {
                return Err(HarnessFailure::BaseSnapshotMissing { id: base_id });
            },
        };
        if base.state == SnapshotState::Candidate {
            return Err(HarnessFailure::FrozenDependsOnCandidate { frozen: owned(id), candidate: base_id });
        }
        if fuel == 0 {
            return Err(HarnessFailure::CompositionCycle { path: cycle_path(&visited, &base_id) });
        }
        let ghost before = string_rows(visited@);
        let ghost b = base_id@;
        visited.push(base_id);
        assert(string_rows(visited@) =~= before.push(b));
        current = crate::nav_projection_snapshot::clone_opt(&base.base_snapshot);
        fuel = fuel - 1;
    }
    Ok(())
}

/// Every snapshot of the library, from position `i` on, keeps the policy.
pub open spec fn all_dependencies(lv: LibView, i: int) -> Result<(), FailureView>
    decreases lv.snapshots.len() - i,
{
    if i < 0 || i >= lv.snapshots.len() {
        Ok(())
    } else {
        match dependencies_of(lv, lv.snapshots[i].id) {
            Err(e) => Err(e),
            Ok(()) => all_dependencies(lv, i + 1),
        }
    }
}

/// No frozen snapshot depends, directly or transitively, on a candidate.
/// Recipes have no state, so they are neutral here.
pub fn verify_frozen_dependencies(library: &Library) -> (r: Result<(), HarnessFailure>)
    ensures
        result_unit_view(r) == all_dependencies(lib_view(*library), 0),
{
    let ghost lv = lib_view(*library);
    let ids = library.snapshot_ids();
    assert(strs(ids@).len() == ids@.len());
    assert(library.snapshot_id_view().len() == lv.snapshots.len());
    let mut i: usize = 0;
    while i < ids.len()
        invariant
            i <= ids@.len(),
            ids@.len() == lv.snapshots.len(),
            lv == lib_view(*library),
            strs(ids@) == library.snapshot_id_view(),
            all_dependencies(lv, 0) == all_dependencies(lv, i as int),
        decreases ids.len() - i,
    {
        assert(strs(ids@)[i as int] == ids@[i as int]@);
        assert(library.snapshot_id_view()[i as int] == lv.snapshots[i as int].id);
        verify_snapshot_dependencies(library, ids[i])?;
        i = i + 1;
    }
    Ok(())
}

/// The entries of every scope, in order.
pub open spec fn flat_entries(ls: Seq<ScopeConsumptionView>) -> Seq<ConsumptionView>
    decreases ls.len(),
{
    if ls.len() == 0 {
        Seq::empty()
    } else {
        flat_entries(ls.drop_last()) + ls.last().entries
    }
}

/// A report that carries a harness failure for snapshot `s`.
pub open spec fn failure_report_of(r: VerifyReport, f: FailureView) -> bool {
    &&& r.observed is None
    &&& r.ledger@.len() == 0
    &&& r.outcome matches Outcome::HarnessFailure(e) && failure_view(e) == f
}

/// The report of the verification of snapshot `id` by its real composition.
pub open spec fn composed_report(r: VerifyReport, lv: LibView, id: Seq<char>, cat: Seq<RegionView>) -> bool {
    match find_snapshot(lv.snapshots, id, 0) {
        None => {
            &&& r.snapshot_id@ == id
            &&& r.state == SnapshotState::Candidate
            &&& r.predecessor is None
            &&& r.expected == (Measures { regions: 0, length: 0, fnv1a64: 0 })
            &&& failure_report_of(r, FailureView::BaseSnapshotMissing { id })
        },
        Some(k) => {
            let s = lv.snapshots[k];
            &&& r.snapshot_id@ == s.id
            &&& r.state == s.state
            &&& crate::nav_projection_snapshot::opt_view(r.predecessor) == s.predecessor
            &&& r.expected == s.measures
            &&& match dependencies_of(lv, id) {
                Err(f) => failure_report_of(r, f),
                Ok(()) => match resolved(lv, id, cat) {
                    Err(f) => failure_report_of(r, f),
                    Ok(c) => {
                        let o = measures_spec(c.regions);
                        &&& r.observed == Some(o)
                        &&& ledger_view(r.ledger@) == flat_entries(c.ledger)
                        &&& divergences(s.measures, o).len() == 0 ==> r.outcome is Match
                        &&& divergences(s.measures, o).len() > 0 ==> (r.outcome matches Outcome::Drift(ds)
                            && divergences_view(ds@) == divergences(s.measures, o))
                    },
                },
            }
        },
    }
}

fn failure_report(snapshot: &ProjectionSnapshot, failure: HarnessFailure) -> (r: VerifyReport)
    ensures
        r.snapshot_id@ == snapshot.id@,
        r.state == snapshot.state,
        crate::nav_projection_snapshot::opt_view(r.predecessor) == crate::nav_projection_snapshot::opt_view(
            snapshot.predecessor,
        ),
        r.expected == snapshot.measures,
        failure_report_of(r, failure_view(failure)),
{
    VerifyReport {
        snapshot_id: snapshot.id.clone(),
        state: snapshot.state,
        predecessor: crate::nav_projection_snapshot::clone_opt(&snapshot.predecessor),
        expected: snapshot.measures,
        observed: None,
        outcome: Outcome::HarnessFailure(failure),
        ledger: Vec::new(),
    }
}

fn missing_report(id: &str) -> (r: VerifyReport)
    ensures
        r.snapshot_id@ == id@,
        r.state == SnapshotState::Candidate,
        r.predecessor is None,
        r.expected == (Measures { regions: 0, length: 0, fnv1a64: 0 }),
        failure_report_of(r, FailureView::BaseSnapshotMissing { id: id@ }),
{
    VerifyReport {
        snapshot_id: owned(id),
        state: SnapshotState::Candidate,
        predecessor: None,
        expected: Measures { regions: 0, length: 0, fnv1a64: 0 },
        observed: None,
        outcome: Outcome::HarnessFailure(HarnessFailure::BaseSnapshotMissing { id: owned(id) }),
        ledger: Vec::new(),
    }
}

fn flatten_ledger(ledger: Vec<ScopeConsumption>) -> (r: Vec<RuleConsumption>)
    ensures
        ledger_view(r@) == flat_entries(scopes_view(ledger@)),
{
    let ghost all = scopes_view(ledger@);
    let mut rest = ledger;
    let mut out: Vec<RuleConsumption> = Vec::new();
    let ghost mut i: int = 0;
    assert(all.take(0) =~= Seq::<ScopeConsumptionView>::empty());
    assert(ledger_view(out@) =~= Seq::<ConsumptionView>::empty());
    assert(scopes_view(rest@) =~= all.skip(0));
    while rest.len() > 0
        invariant
            0 <= i <= all.len(),
            scopes_view(rest@) == all.skip(i),
            ledger_view(out@) == flat_entries(all.take(i)),
        decreases rest.len(),
    {
        let ghost before = rest@;
        let ghost o = out@;
        let mut scope = rest.remove(0);
        proof {
            assert(scopes_view(before).len() == before.len());
            assert(all.skip(i).len() == before.len());
            assert(scopes_view(before)[0] == scope_consumption_view(before[0]));
            assert(all.skip(i)[0] == all[i]);
            assert(scope_consumption_view(scope) == all[i]);
            assert(scopes_view(rest@) =~= all.skip(i + 1)) by {
                assert forall|j: int| 0 <= j < scopes_view(rest@).len() implies scopes_view(rest@)[j]
                    == all.skip(i + 1)[j] by {
                    assert(before.remove(0)[j] == before[j + 1]);
                    assert(scopes_view(before)[j + 1] == scope_consumption_view(before[j + 1]));
                    assert(all.skip(i)[j + 1] == all[i + j + 1]);
                }
            }
            assert(all.take(i + 1).drop_last() =~= all.take(i));
        }
        let ghost added = scope.entries@;
        out.append(&mut scope.entries);
        assert(ledger_view(out@) =~= ledger_view(o) + ledger_view(added));
        proof {
            i = i + 1;
        }
    }
    assert(all.take(i) =~= all);
    out
}

/// Verifies a snapshot by its real composition (base, recipes and local
/// rules), with `resolve` as the one authority.
pub fn verify_composed(library: &Library, id: &str, catalog: &[CodeRegion]) -> (r: VerifyReport)
    ensures
        composed_report(r, lib_view(*library), id@, code_regions_view(catalog@)),
{
    let ghost lv = lib_view(*library);
    let snapshot = match library.snapshot(id) {
        Some(s) => s,
        None => {
            return missing_report(id);
        },
    };
    match verify_snapshot_dependencies(library, id) {
        Err(failure) => {
            return failure_report(snapshot, failure);
        },
        Ok(()) => {},
    }
    let composition = match resolve(library, id, catalog) {
        Ok(c) => c,
        Err(failure) => {
            return failure_report(snapshot, failure);
        },
    };
    let observed = composition.measures();
    let ds = divergences_exec(snapshot.measures, observed);
    let outcome = if ds.len() == 0 {
        Outcome::Match
    } else {
        Outcome::Drift(ds)
    };
    VerifyReport {
        snapshot_id: snapshot.id.clone(),
        state: snapshot.state,
        predecessor: crate::nav_projection_snapshot::clone_opt(&snapshot.predecessor),
        expected: snapshot.measures,
        observed: Some(observed),
        outcome,
        ledger: flatten_ledger(composition.ledger),
    }
}

proof fn lemma_find_unique(ss: Seq<SnapshotView>, j: int, i: int)
    requires
        ids_increasing(ss.map_values(|s: SnapshotView| s.id)),
        0 <= i <= j < ss.len(),
    ensures
        find_snapshot(ss, ss[j].id, i) == Some(j),
    decreases j - i,
{
    let ids = ss.map_values(|s: SnapshotView| s.id);
    if i < j {
        assert(seq_lt(ids[i], ids[j]));
        if ids[i] == ids[j] {
            crate::text::lemma_seq_lt_irrefl_eq(ids[i], ids[j]);
        }
        assert(ss[i].id != ss[j].id);
        lemma_find_unique(ss, j, i + 1);
    }
}

/// A snapshot that was added to a library is the one its identifier finds.
pub proof fn law_added_snapshot_is_found(before: Library, after: Library, s: SnapshotView)
    requires
        after.wf(),
        after.snapshot_views().to_multiset() == before.snapshot_views().to_multiset().insert(s),
    ensures
        find_snapshot(after.snapshot_views(), s.id, 0) matches Some(k) && after.snapshot_views()[k] == s,
{
    broadcast use vstd::seq_lib::group_to_multiset_ensures;
    broadcast use vstd::multiset::group_multiset_axioms;

    let ss = after.snapshot_views();
    assert(ss.to_multiset().count(s) > 0);
    assert(ss.contains(s));
    let j = choose|j: int| 0 <= j < ss.len() && ss[j] == s;
    assert(after.snapshot_id_view() =~= ss.map_values(|x: SnapshotView| x.id));
    lemma_find_unique(ss, j, 0);
}

} // verus!
