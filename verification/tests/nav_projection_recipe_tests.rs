use pinker_nav::nav::{rust_code_mask, rust_doc_comment_spans, CodeRegion};
use pinker_nav::nav_projection_recipe::{
    parse_recipe, render_recipe, resolve, verify_composed, verify_frozen_dependencies,
    verify_snapshot_dependencies, Library, Recipe, RECIPE_SCHEMA,
};
use pinker_nav::nav_projection_snapshot::{
    measure, parse, HarnessFailure, Measures, Outcome, ProjectionSnapshot, SchemaAuthority,
    SnapshotState,
};

fn region(key: &str, file: &str) -> CodeRegion {
    CodeRegion {
        key: key.to_string(),
        kind: "region".to_string(),
        domain: None,
        layer: None,
        phase: None,
        file: file.to_string(),
        start_marker: 1,
        content_start: 2,
        content_end: 3,
        end_marker: 4,
        summary: format!("Resumo de {}.", key),
        hash: "fnv1a64:0000000000000001".to_string(),
        status: "active".to_string(),
        symbols: Vec::new(),
        related_symbols: Vec::new(),
        test_for: Vec::new(),
        symbol_docs: Vec::new(),
    }
}

fn catalog() -> Vec<CodeRegion> {
    vec![region("a.um", "src/um.rs"), region("a.dois", "src/dois.rs"), region("b.tres", "src/tres.rs")]
}

const RECIPE: &str = "schema = 1\nid = \"tira-b\"\n\n[reconstruction]\nexpected_overrides = 0\nexpected_exclusions = 1\n\n[[rules]]\nop = \"exclude-key\"\nkey = \"b.tres\"\nexpected_matches = 1\n";

fn snapshot(id: &str, state: &str, base: Option<&str>, recipes: &[&str], measures: Measures) -> ProjectionSnapshot {
    let mut text = format!("schema = 2\nid = \"{id}\"\nstate = \"{state}\"\njustification = \"teste\"\n\n[reconstruction]\n");
    if let Some(b) = base {
        text.push_str(&format!("base_snapshot = \"{b}\"\n"));
    }
    if !recipes.is_empty() {
        let list: Vec<String> = recipes.iter().map(|r| format!("\"{r}\"")).collect();
        text.push_str(&format!("recipes = [{}]\n", list.join(", ")));
    }
    text.push_str("expected_overrides = 0\nexpected_exclusions = 0\n\n[measures]\n");
    text.push_str(&format!(
        "regions = {}\nlength = {}\nfnv1a64 = \"{}\"\n",
        measures.regions,
        measures.length,
        measures.fnv1a64_canonical()
    ));
    parse(&text).expect("snapshot de teste válido")
}

#[test]
fn recipe_text_is_parsed_and_rendered_canonically() {
    let recipe = parse_recipe(RECIPE).expect("receita válida");
    assert_eq!(recipe.schema, 1);
    assert_eq!(recipe.id, "tira-b");
    assert!(recipe.steps.is_empty());
    assert_eq!(recipe.expected_exclusions, 1);
    assert_eq!(render_recipe(&recipe), RECIPE);
    assert_eq!(parse_recipe(&render_recipe(&recipe)), Ok(recipe.clone()));
    assert_eq!(recipe.relative_path(), ".pinker/projections/recipes/tira-b.toml");
    assert_eq!(RECIPE_SCHEMA, 2);
}

#[test]
fn recipe_refuses_snapshot_fields_and_bad_steps() {
    let with_state = RECIPE.replace("id = \"tira-b\"\n", "id = \"tira-b\"\nstate = \"FROZEN\"\n");
    assert_eq!(
        parse_recipe(&with_state),
        Err(HarnessFailure::RecipeHasSnapshotField { field: "state".to_string() })
    );
    let self_step = RECIPE.replace("[reconstruction]\n", "[reconstruction]\nsteps = [\"tira-b\"]\n");
    assert_eq!(
        parse_recipe(&self_step),
        Err(HarnessFailure::RecipeSelfStep { id: "tira-b".to_string() })
    );
    let bad_schema = RECIPE.replace("schema = 1", "schema = 4");
    assert_eq!(
        parse_recipe(&bad_schema),
        Err(HarnessFailure::SchemaUnknown { authority: SchemaAuthority::Recipe, found: 4 })
    );
    let budget = RECIPE.replace("expected_exclusions = 1", "expected_exclusions = 2");
    assert_eq!(
        parse_recipe(&budget),
        Err(HarnessFailure::ExclusionMissing { declared: 2, found: 1 })
    );
}

#[test]
fn library_keeps_namespaces_apart_and_refuses_repeats() {
    let recipe = parse_recipe(RECIPE).unwrap();
    let zero = Measures { regions: 0, length: 0, fnv1a64: 0 };
    let lib = Library::new().with_recipe(recipe.clone()).unwrap();
    let lib = lib.with_snapshot(snapshot("tira-b", "FROZEN", None, &[], zero)).unwrap();
    assert_eq!(lib.snapshot_ids(), vec!["tira-b"]);
    assert_eq!(lib.recipe_ids(), vec!["tira-b"]);
    assert!(lib.recipe("tira-b").is_some());
    assert!(lib.snapshot("nada").is_none());
    match lib.clone().with_recipe(recipe) {
        Err(HarnessFailure::DuplicateRecipe { id }) => assert_eq!(id, "tira-b"),
        other => panic!("esperava receita duplicada: {:?}", other.map(|_| ())),
    }
}

#[test]
fn composition_applies_base_then_recipes_and_checks_base_measures() {
    let cat = catalog();
    let full = measure(&cat);
    let recipe = parse_recipe(RECIPE).unwrap();
    let base = snapshot("base", "FROZEN", None, &[], full);
    let two: Vec<CodeRegion> = cat[..2].to_vec();
    let reduced = measure(&two);
    let top = snapshot("topo", "FROZEN", Some("base"), &["tira-b"], reduced);
    let lib = Library::new()
        .with_recipe(recipe)
        .unwrap()
        .with_snapshot(base)
        .unwrap()
        .with_snapshot(top)
        .unwrap();
    let composition = resolve(&lib, "topo", &cat).expect("composição válida");
    assert_eq!(composition.verified_bases, vec!["base".to_string()]);
    assert_eq!(composition.regions.len(), 2);
    let scopes: Vec<&str> = composition.ledger.iter().map(|s| s.scope.as_str()).collect();
    assert_eq!(scopes, vec!["snapshot:base", "recipe:tira-b", "snapshot:topo"]);
    assert_eq!(composition.measures(), reduced);
    assert!(verify_frozen_dependencies(&lib).is_ok());
    let report = verify_composed(&lib, "topo", &cat);
    assert_eq!(report.outcome, Outcome::Match);
    assert_eq!(report.ledger.len(), 1);
    let missing = verify_composed(&lib, "nada", &cat);
    assert_eq!(missing.state, SnapshotState::Candidate);
    assert!(matches!(
        missing.outcome,
        Outcome::HarnessFailure(HarnessFailure::BaseSnapshotMissing { .. })
    ));
}

#[test]
fn composition_refuses_diverged_base_cycles_and_candidate_dependencies() {
    let cat = catalog();
    let wrong = Measures { regions: 9, length: 9, fnv1a64: 9 };
    let base = snapshot("base", "CANDIDATE", None, &[], wrong);
    let top = snapshot("topo", "FROZEN", Some("base"), &[], wrong);
    let lib = Library::new().with_snapshot(base).unwrap().with_snapshot(top).unwrap();
    assert!(matches!(
        resolve(&lib, "topo", &cat),
        Err(HarnessFailure::BaseMeasuresDiverged { .. })
    ));
    assert_eq!(
        verify_snapshot_dependencies(&lib, "topo"),
        Err(HarnessFailure::FrozenDependsOnCandidate {
            frozen: "topo".to_string(),
            candidate: "base".to_string()
        })
    );
    let looping = Recipe {
        schema: 1,
        id: "volta".to_string(),
        steps: vec!["volta".to_string()],
        expected_overrides: 0,
        expected_exclusions: 0,
        rules: Vec::new(),
    };
    let s = snapshot("s", "CANDIDATE", None, &["volta"], wrong);
    let lib = Library::new().with_recipe(looping).unwrap().with_snapshot(s).unwrap();
    assert_eq!(
        resolve(&lib, "s", &cat),
        Err(HarnessFailure::CompositionCycle {
            path: "snapshot:s → recipe:volta → recipe:volta".to_string()
        })
    );
}

#[test]
fn rust_mask_hides_comments_and_literals_keeping_offsets() {
    let text = "let a = \"x//y\"; // nota\n/// doc\nlet c = 'é';\n";
    let masked = rust_code_mask(text);
    assert_eq!(masked.len(), text.len());
    assert_eq!(masked, "let a =       ;        \n       \nlet c =     ;\n");
    let spans = rust_doc_comment_spans(text);
    assert_eq!(spans, vec![24..31]);
    let block = "/** doc */ x /* a /* b */ c */ y";
    assert_eq!(rust_code_mask(block), "           x                   y");
    assert_eq!(rust_doc_comment_spans(block), vec![0..10]);
}

fn materializing_rule() -> pinker_nav::nav_projection_snapshot::Rule {
    pinker_nav::nav_projection_snapshot::Rule::MaterializeRegion {
        key: "k".to_string(),
        kind: "region".to_string(),
        domain: None,
        layer: None,
        file: "src/a.rs".to_string(),
        summary: "s".to_string(),
        hash: "fnv1a64:0000000000000001".to_string(),
        status: "active".to_string(),
    }
}

#[test]
fn receita_em_memoria_nao_materializa_regiao() {
    let recipe = Recipe {
        schema: 2,
        id: "r".to_string(),
        steps: vec![],
        expected_overrides: 0,
        expected_exclusions: 1,
        rules: vec![materializing_rule()],
    };
    match Library::new().with_recipe(recipe) {
        Err(HarnessFailure::OperationOutsideAuthority { authority, op }) => {
            assert_eq!(authority, SchemaAuthority::Recipe);
            assert_eq!(op, "materialize-region");
        }
        other => panic!("esperada recusa nomeada, veio {:?}", other.map(|_| ())),
    }
}

#[test]
fn receita_textual_com_materializacao_e_recusada_pela_autoridade() {
    let text = "schema = 2\nid = \"r\"\n\n[reconstruction]\nexpected_overrides = 0\nexpected_exclusions = 0\n\n[[rules]]\nop = \"materialize-region\"\nkey = \"k\"\nkind = \"region\"\nfile = \"src/a.rs\"\nsummary = \"s\"\nhash = \"fnv1a64:0000000000000001\"\nstatus = \"active\"\n";
    match parse_recipe(text) {
        Err(HarnessFailure::OperationOutsideAuthority { authority, op }) => {
            assert_eq!(authority, SchemaAuthority::Recipe);
            assert_eq!(op, "materialize-region");
        }
        other => panic!("esperada recusa nomeada, veio {:?}", other.map(|_| ())),
    }
}

#[test]
fn receita_de_schema_tres_e_aceita() {
    let text = "schema = 3\nid = \"r\"\n\n[reconstruction]\nexpected_overrides = 0\nexpected_exclusions = 0\n";
    let recipe = parse_recipe(text).expect("schema 3 é suportado pela autoridade de receita");
    assert_eq!(recipe.schema, 3);
    assert_eq!(recipe.id, "r");
    assert!(recipe.steps.is_empty());
    assert!(recipe.rules.is_empty());
}

#[test]
fn snapshot_em_memoria_passa_pelo_mesmo_validador() {
    let mut s = snapshot("s", "CANDIDATE", None, &[], Measures { regions: 0, length: 0, fnv1a64: 0 });
    s.schema = 9;
    match Library::new().with_snapshot(s) {
        Err(HarnessFailure::SchemaUnknown { authority, found }) => {
            assert_eq!(authority, SchemaAuthority::Snapshot);
            assert_eq!(found, 9);
        }
        other => panic!("esperado schema desconhecido, veio {:?}", other.map(|_| ())),
    }
}

const RECIPE_UNORDERED: &str = "id = \"compor\"\nschema = 2\n\n[reconstruction]\nexpected_exclusions = 3\nsteps = [ \"passo-a\" ,\"passo.b\"]\nexpected_overrides = 0\n\n[[rules]]\nop = \"exclude-key-prefix\"\nprefix = \"z.\"\nexpected_matches = 1\n\n[[rules]]\nop = \"exclude-key\"\nkey = \"b.tres\"\nexpected_matches = 1\n\n[[rules]]\nexpected_matches = 2\nkey = \"b.tres\"\nop = \"exclude-key\"\n";

#[test]
fn render_of_parsed_recipe_reads_back_the_same_recipe() {
    let recipe = parse_recipe(RECIPE_UNORDERED).expect("receita valida");
    assert_eq!(recipe.steps, vec!["passo-a".to_string(), "passo.b".to_string()]);
    let rendered = render_recipe(&recipe);
    assert!(rendered.contains("steps = [\"passo-a\", \"passo.b\"]\n"));
    let reparsed = parse_recipe(&rendered).expect("render canônico volta a interpretar");
    assert_eq!(reparsed, recipe);
    assert_eq!(render_recipe(&reparsed), rendered);
}
