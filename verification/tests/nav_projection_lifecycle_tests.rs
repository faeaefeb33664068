use pinker_nav::nav::CodeRegion;
use pinker_nav::nav_projection_lifecycle::{
    empty_recipe, plan_accept, plan_prepare, recipe_id, recipe_path, snapshot_path, LifecycleOperation,
    ProjectionError, PROJECTION_CLI_SCHEMA, RECIPE_PREFIX,
};
use pinker_nav::nav_projection_recipe::{render_recipe, RECIPE_SCHEMA};
use pinker_nav::nav_projection_report::{
    render_error_json, render_inventory_human, render_inventory_json, render_show_human, render_show_json,
    render_verification_human, render_verification_json, verify_all, verify_one,
};
use pinker_nav::nav_projection_snapshot::{measure, parse, render, Measures, Outcome, SnapshotState};
use pinker_nav::nav_projection_store::{ArtifactSource, ProjectionStore, StoreFailure};

fn region(key: &str, file: &str) -> CodeRegion {
    CodeRegion {
        key: key.to_string(),
        kind: "region".to_string(),
        domain: None,
        layer: None,
        phase: None,
        file: file.to_string(),
        start_marker: 1,
        content_start: 2,
        content_end: 3,
        end_marker: 4,
        summary: format!("Resumo de {}.", key),
        hash: "fnv1a64:0000000000000001".to_string(),
        status: "active".to_string(),
        symbols: Vec::new(),
        related_symbols: Vec::new(),
        test_for: Vec::new(),
        symbol_docs: Vec::new(),
    }
}

fn catalog() -> Vec<CodeRegion> {
    vec![region("a.um", "src/um.rs"), region("a.dois", "src/dois.rs")]
}

fn frozen_text(id: &str, m: Measures) -> String {
    let text = format!(
        "schema = 2\nid = \"{id}\"\nstate = \"FROZEN\"\njustification = \"teste\"\n\n[reconstruction]\nexpected_overrides = 0\nexpected_exclusions = 0\n\n[measures]\nregions = {}\nlength = {}\nfnv1a64 = \"{}\"\n",
        m.regions,
        m.length,
        m.fnv1a64_canonical()
    );
    render(&parse(&text).expect("snapshot de teste válido"))
}

fn source(stem: &str, text: &str) -> ArtifactSource {
    ArtifactSource::Text { stem: stem.to_string(), bytes: text.as_bytes().to_vec(), text: text.to_string() }
}

fn store_with(snapshots: Vec<(&str, String)>, recipes: Vec<(&str, String)>, extra: bool) -> ProjectionStore {
    let mut snapshot_entries: Vec<(String, ArtifactSource)> = snapshots
        .iter()
        .map(|(id, text)| (format!(".pinker/projections/{id}.toml"), source(id, text)))
        .collect();
    if extra {
        snapshot_entries.push((".pinker/projections/notas.txt".to_string(), ArtifactSource::NotToml));
    }
    let recipe_entries = recipes
        .iter()
        .map(|(id, text)| (format!(".pinker/projections/recipes/{id}.toml"), source(id, text)))
        .collect();
    ProjectionStore::from_sources(snapshot_entries, recipe_entries)
}

#[test]
fn lifecycle_paths_and_names() {
    assert_eq!(PROJECTION_CLI_SCHEMA, 1);
    assert_eq!(RECIPE_PREFIX, "normalizacao-corrente-para-");
    assert_eq!(recipe_id("c1"), "normalizacao-corrente-para-c1");
    assert_eq!(snapshot_path("c1"), ".pinker/projections/c1.toml");
    assert_eq!(recipe_path("c1"), ".pinker/projections/recipes/normalizacao-corrente-para-c1.toml");
    let r = empty_recipe("c1");
    assert_eq!(r.schema, RECIPE_SCHEMA);
    assert_eq!(r.id, "normalizacao-corrente-para-c1");
    assert!(r.steps.is_empty() && r.rules.is_empty());
    assert_eq!(r.expected_overrides + r.expected_exclusions, 0);
    assert_eq!(LifecycleOperation::Prepare.as_str(), "PREPARE_CANDIDATE");
    assert_eq!(LifecycleOperation::Accept.as_str(), "ACCEPT_CANDIDATE");
}

#[test]
fn error_messages_name_their_kind() {
    let e = ProjectionError::NotFound { id: "x".to_string() };
    assert_eq!(e.message(), "projeção 'x' não encontrada");
    let e = ProjectionError::Harness { path: Some("p".to_string()), message: "m".to_string() };
    assert_eq!(e.message(), "HARNESS_FAILURE: p: m");
    let e = ProjectionError::Harness { path: None, message: "m".to_string() };
    assert_eq!(e.message(), "HARNESS_FAILURE: m");
    let e = ProjectionError::VerifyAfterApply { message: "m".to_string(), written: true };
    assert_eq!(e.message(), "VERIFY_AFTER_APPLY_FAILURE (written=true): m");
    assert_eq!(
        render_error_json("aceitar", &e),
        "{\"schema\":1,\"command\":\"aceitar\",\"outcome\":\"VERIFY_AFTER_APPLY_FAILURE\",\"message\":\"VERIFY_AFTER_APPLY_FAILURE (written=true): m\",\"written\":true}"
    );
    let e = ProjectionError::Authority(StoreFailure::AuthorityIo { path: "d".to_string(), msg: "negado".to_string() });
    assert_eq!(
        render_error_json("listar", &e),
        "{\"schema\":1,\"command\":\"listar\",\"outcome\":\"IO_FAILURE\",\"message\":\"autoridade de projeções ilegível em 'd': negado\",\"written\":false}"
    );
}

#[test]
fn inventory_lists_snapshots_then_structural_failures() {
    let m = measure(&catalog());
    let store = store_with(vec![("s1", frozen_text("s1", m))], vec![], true);
    let expected = format!(
        "projeções históricas\n- s1 [FROZEN] .pinker/projections/s1.toml regioes={} comprimento={} {}\n  predecessor=— base=— recipes=—\nerro .pinker/projections/notas.txt [unknown]: entrada não reconhecida; esperado arquivo .toml de snapshot\n",
        m.regions,
        m.length,
        m.fnv1a64_canonical()
    );
    assert_eq!(render_inventory_human(&store), expected);
    let json = render_inventory_json(&store);
    assert!(json.starts_with("{\"schema\":1,\"command\":\"listar\",\"outcome\":\"HARNESS_FAILURE\",\"snapshots\":[{\"id\":\"s1\",\"state\":\"FROZEN\",\"predecessor\":null,\"base_snapshot\":null,\"recipes\":[],\"measures\":{\"regions\":2,"));
    assert!(json.ends_with("\"errors\":[{\"path\":\".pinker/projections/notas.txt\",\"kind\":\"unknown\",\"message\":\"entrada não reconhecida; esperado arquivo .toml de snapshot\"}]}"));
}

#[test]
fn verification_of_a_store_matches_or_is_not_found() {
    let m = measure(&catalog());
    let store = store_with(vec![("s1", frozen_text("s1", m))], vec![], false);
    let item = verify_one(&store, "s1", &catalog()).expect("s1 existe");
    assert_eq!(item.path, ".pinker/projections/s1.toml");
    assert_eq!(item.report.outcome, Outcome::Match);
    match verify_one(&store, "zz", &catalog()) {
        Err(ProjectionError::NotFound { id }) => assert_eq!(id, "zz"),
        other => panic!("esperado NotFound, veio {:?}", other),
    }
    let batch = verify_all(&store, &catalog());
    assert_eq!(batch.results.len(), 1);
    assert!(batch.causes.is_empty() && batch.errors.is_empty());
    assert_eq!(batch.outcome(), "MATCH");
    let human = render_verification_human(&batch);
    assert!(human.starts_with("verificar: MATCH\n.pinker/projections/s1.toml MATCH\nid=s1 state=FROZEN outcome=MATCH\n"));
    let json = render_verification_json(&batch);
    assert!(json.starts_with("{\"schema\":1,\"command\":\"verificar\",\"outcome\":\"MATCH\",\"results\":[{\"path\":\".pinker/projections/s1.toml\",\"verification\":{\"snapshot\":\"s1\",\"state\":\"FROZEN\",\"outcome\":\"MATCH\""));
    assert!(json.ends_with("\"divergences\":[],\"failure\":null}}],\"causes\":[],\"errors\":[]}"));
}

#[test]
fn a_drifted_snapshot_makes_the_batch_drift() {
    let m = measure(&catalog());
    let wrong = Measures { regions: m.regions + 1, length: m.length, fnv1a64: m.fnv1a64 };
    let store = store_with(vec![("s1", frozen_text("s1", wrong))], vec![], false);
    let batch = verify_all(&store, &catalog());
    assert!(matches!(batch.results[0].report.outcome, Outcome::Drift(_)));
    assert_eq!(batch.outcome(), "DRIFT");
}

#[test]
fn show_renders_definition_and_observation() {
    let m = measure(&catalog());
    let store = store_with(vec![("s1", frozen_text("s1", m))], vec![], false);
    let stored = store.snapshot("s1").expect("s1");
    let human = render_show_human(stored, None);
    let expected = format!(
        "definicao\nartifact_schema: 2\nid: s1\nstate: FROZEN\npredecessor: —\njustification: teste\nbase_snapshot: —\nrecipes: —\nexpected_overrides: 0\nexpected_exclusions: 0\nmeasures: regioes={} comprimento={} {}\npath: .pinker/projections/s1.toml\n",
        m.regions,
        m.length,
        m.fnv1a64_canonical()
    );
    assert_eq!(human, expected);
    let item = verify_one(&store, "s1", &catalog()).expect("s1");
    let with = render_show_human(stored, Some(&item.report));
    assert!(with.starts_with(&expected));
    assert!(with[expected.len()..].starts_with("observado\nid=s1 state=FROZEN outcome=MATCH\n"));
    let json = render_show_json(stored, None);
    assert!(json.starts_with("{\"schema\":1,\"command\":\"mostrar\",\"definicao\":{\"artifact_schema\":2,\"id\":\"s1\",\"state\":\"FROZEN\",\"predecessor\":null,\"justification\":\"teste\""));
    assert!(json.ends_with(",\"path\":\".pinker/projections/s1.toml\"},\"observado\":null}"));
}

#[test]
fn preparation_checks_its_arguments() {
    let m = measure(&catalog());
    let store = store_with(vec![("s1", frozen_text("s1", m))], vec![], false);
    let policy = |r: Result<_, ProjectionError>| match r {
        Err(e) => e.message(),
        Ok(_) => panic!("esperada recusa"),
    };
    assert_eq!(
        policy(plan_prepare(&store, &catalog(), "c1", " ", "motivo")),
        "POLICY_VIOLATION: --predecessor é obrigatório"
    );
    assert_eq!(
        policy(plan_prepare(&store, &catalog(), "c1", "c1", "motivo")),
        "POLICY_VIOLATION: candidate não pode ser o próprio predecessor"
    );
    assert_eq!(
        policy(plan_prepare(&store, &catalog(), "c1", "s1", "  ")),
        "POLICY_VIOLATION: --justificativa deve ser não vazia"
    );
    assert_eq!(
        policy(plan_prepare(&store, &catalog(), "c1", "nada", "motivo")),
        "POLICY_VIOLATION: predecessor 'nada' não existe"
    );
    assert_eq!(
        policy(plan_prepare(&store, &catalog(), "s1", "c0", "motivo")),
        "POLICY_VIOLATION: 's1' já é FROZEN; preparar nunca sobrescreve história"
    );
    assert!(policy(plan_prepare(&store, &catalog(), "C1", "s1", "motivo")).starts_with("HARNESS_FAILURE: E-SNAP-ID "));
}

#[test]
fn preparation_then_acceptance_freezes_the_candidate() {
    let m = measure(&catalog());
    let s1 = frozen_text("s1", m);
    let store = store_with(vec![("s1", s1.clone())], vec![], false);
    let plan = plan_prepare(&store, &catalog(), "c1", "s1", "motivo").expect("preparação válida");
    assert_eq!(plan.operation, LifecycleOperation::Prepare);
    let c = &plan.desired_snapshot;
    assert_eq!(c.id, "c1");
    assert_eq!(c.state, SnapshotState::Candidate);
    assert_eq!(c.predecessor.as_deref(), Some("s1"));
    assert_eq!(c.justification.as_deref(), Some("motivo"));
    assert_eq!(c.recipes, vec!["normalizacao-corrente-para-c1".to_string()]);
    assert_eq!(c.measures, m);
    let recipe = plan.desired_recipe.as_ref().expect("recipe própria");
    assert_eq!(recipe.id, "normalizacao-corrente-para-c1");
    assert!(plan.recipe_before.is_none());

    let candidate_text = render(c);
    let recipe_text = render_recipe(recipe);
    let store2 = store_with(
        vec![("c1", candidate_text.clone()), ("s1", s1)],
        vec![("normalizacao-corrente-para-c1", recipe_text.clone())],
        false,
    );
    let accepted = plan_accept(&store2, &catalog(), "c1").expect("aceitação válida");
    assert_eq!(accepted.operation, LifecycleOperation::Accept);
    assert_eq!(accepted.desired_snapshot.state, SnapshotState::Frozen);
    assert_eq!(accepted.desired_snapshot.id, "c1");
    assert_eq!(accepted.desired_snapshot.measures, m);
    assert_eq!(accepted.recipe_before.as_deref(), Some(recipe_text.as_bytes()));
    assert!(accepted.desired_recipe.is_none());

    match plan_accept(&store2, &catalog(), "s1") {
        Err(e) => assert_eq!(
            e.message(),
            "POLICY_VIOLATION: 's1' está em FROZEN; aceitar é uma transição única de CANDIDATE"
        ),
        Ok(_) => panic!("um FROZEN não é aceito de novo"),
    }
    match plan_accept(&store2, &catalog(), "c9") {
        Err(ProjectionError::NotFound { id }) => assert_eq!(id, "c9"),
        other => panic!("esperado NotFound, veio {:?}", other.map(|p| p.desired_snapshot.id)),
    }
    let store3 = store_with(vec![("c1", candidate_text), ("s1", frozen_text("s1", m))], vec![], false);
    match plan_accept(&store3, &catalog(), "c1") {
        Err(e) => assert_eq!(e.message(), "POLICY_VIOLATION: recipe própria de 'c1' está ausente"),
        Ok(_) => panic!("sem recipe própria não há aceitação"),
    }
}
