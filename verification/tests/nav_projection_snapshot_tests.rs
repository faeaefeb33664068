use pinker_nav::nav::CodeRegion;
use pinker_nav::nav_projection_snapshot::{validate_rules, SchemaAuthority};
use pinker_nav::nav_projection_snapshot::{
    human_report, json_report, measure, parse, reconstruct, render, verify, HarnessFailure,
    Measures, Outcome, Rule, SnapshotState, SNAPSHOT_SCHEMA, SNAPSHOT_SCHEMA_V1,
};

fn region(key: &str, file: &str, hash: &str) -> CodeRegion {
    CodeRegion {
        key: key.to_string(),
        kind: "region".to_string(),
        domain: Some("dominio".to_string()),
        layer: Some("camada".to_string()),
        phase: None,
        file: file.to_string(),
        start_marker: 1,
        content_start: 2,
        content_end: 3,
        end_marker: 4,
        summary: format!("Resumo de {}.", key),
        hash: hash.to_string(),
        status: "active".to_string(),
        symbols: Vec::new(),
        related_symbols: Vec::new(),
        test_for: Vec::new(),
        symbol_docs: Vec::new(),
    }
}

fn base_catalog() -> Vec<CodeRegion> {
    vec![
        region("a.b.um", "src/um.rs", "fnv1a64:0000000000000001"),
        region("a.b.dois", "src/dois.rs", "fnv1a64:0000000000000002"),
        region("posterior.novo", "src/novo.rs", "fnv1a64:0000000000000003"),
    ]
}

const VALID: &str = "schema = 1\nid = \"exemplo-historico\"\nstate = \"FROZEN\"\npredecessor = \"exemplo-anterior\"\njustification = \"fixture sintetica\"\n\n[reconstruction]\nexpected_overrides = 1\nexpected_exclusions = 1\n\n[measures]\nregions = 2\nlength = 0\nfnv1a64 = \"fnv1a64:0000000000000000\"\n\n[[rules]]\nop = \"exclude-key\"\nkey = \"posterior.novo\"\nexpected_matches = 1\n\n[[rules]]\nop = \"override-hash\"\nkey = \"a.b.um\"\nfrom = \"fnv1a64:0000000000000001\"\nto = \"fnv1a64:00000000000000ff\"\n";

#[test]
fn nav_projection_snapshot_parse_aceita_snapshot_valido() {
    let snapshot = parse(VALID).expect("snapshot valido");
    assert_eq!(snapshot.schema, SNAPSHOT_SCHEMA_V1);
    assert_eq!(snapshot.base_snapshot, None);
    assert!(snapshot.recipes.is_empty());
    assert_eq!(snapshot.id, "exemplo-historico");
    assert_eq!(snapshot.state, SnapshotState::Frozen);
    assert_eq!(snapshot.predecessor.as_deref(), Some("exemplo-anterior"));
    assert_eq!(snapshot.rules.len(), 2);
    assert_eq!(snapshot.rules[0].op(), "exclude-key");
    assert_eq!(snapshot.rules[1].op(), "override-hash");
}

#[test]
fn nav_projection_snapshot_render_e_parse_sao_estaveis() {
    let snapshot = parse(VALID).expect("snapshot valido");
    let rendered = render(&snapshot);
    let reparsed = parse(&rendered).expect("render canônico volta a interpretar");
    assert_eq!(snapshot, reparsed);
    assert_eq!(rendered, render(&reparsed));
}

#[test]
fn nav_projection_snapshot_reconstrucao_consome_regras_exatamente() {
    let snapshot = parse(VALID).expect("snapshot valido");
    let reconstruction = reconstruct(&base_catalog(), &snapshot).expect("reconstrucao valida");
    assert_eq!(reconstruction.regions.len(), 2);
    assert_eq!(
        reconstruction
            .regions
            .iter()
            .find(|region| region.key == "a.b.um")
            .map(|region| region.hash.as_str()),
        Some("fnv1a64:00000000000000ff")
    );
    assert_eq!(reconstruction.ledger.len(), 2);
    assert!(reconstruction
        .ledger
        .iter()
        .all(|entry| entry.consumed == entry.expected));
}

#[test]
fn nav_projection_snapshot_medida_e_independente_da_ordem_de_entrada() {
    let mut invertido = base_catalog();
    invertido.reverse();
    assert_eq!(measure(&base_catalog()), measure(&invertido));
}

#[test]
fn nav_projection_snapshot_schema_desconhecido_e_falha_de_harness() {
    let text = VALID.replace("schema = 1", &format!("schema = {}", SNAPSHOT_SCHEMA + 1));
    match parse(&text) {
        Err(HarnessFailure::SchemaUnknown { found, .. }) => {
            assert_eq!(found, SNAPSHOT_SCHEMA + 1)
        }
        outro => panic!("esperado schema desconhecido, veio {outro:?}"),
    }
}

#[test]
fn nav_projection_snapshot_chave_desconhecida_e_rejeitada() {
    let text = format!("{}extra = 1\n", VALID);
    assert!(matches!(
        parse(&text),
        Err(HarnessFailure::InvalidField { .. })
    ));
}

#[test]
fn nav_projection_snapshot_chave_duplicada_e_rejeitada() {
    let text = VALID.replace(
        "state = \"FROZEN\"",
        "state = \"FROZEN\"\nstate = \"FROZEN\"",
    );
    assert!(matches!(parse(&text), Err(HarnessFailure::Toml(_))));
}

#[test]
fn nav_projection_snapshot_hash_invalido_e_rejeitado() {
    let text = VALID.replace("fnv1a64:0000000000000000", "fnv1a64:XYZ");
    assert!(matches!(
        parse(&text),
        Err(HarnessFailure::HashInvalid { .. })
    ));
}

#[test]
fn nav_projection_snapshot_falha_de_harness_nao_produz_medida_observada() {
    let text = VALID.replace("key = \"a.b.um\"", "key = \"a.b.inexistente\"");
    let snapshot = parse(&text).expect("snapshot valido");
    let report = verify(&snapshot, &base_catalog());
    assert!(matches!(report.outcome, Outcome::HarnessFailure(_)));
    assert!(report.observed.is_none());
}

#[test]
fn tests_parse_aceita_snapshot_valido() {
    let snapshot = parse(VALID).expect("snapshot valido");
    assert_eq!(snapshot.schema, SNAPSHOT_SCHEMA_V1);
    assert_eq!(snapshot.base_snapshot, None);
    assert!(snapshot.recipes.is_empty());
    assert_eq!(snapshot.id, "exemplo-historico");
    assert_eq!(snapshot.state, SnapshotState::Frozen);
    assert_eq!(snapshot.predecessor.as_deref(), Some("exemplo-anterior"));
    assert_eq!(snapshot.rules.len(), 2);
    assert_eq!(snapshot.rules[0].op(), "exclude-key");
    assert_eq!(snapshot.rules[1].op(), "override-hash");
}

#[test]
fn tests_render_e_parse_sao_estaveis() {
    let snapshot = parse(VALID).expect("snapshot valido");
    let rendered = render(&snapshot);
    let reparsed = parse(&rendered).expect("render canônico volta a interpretar");
    assert_eq!(snapshot, reparsed);
    assert_eq!(rendered, render(&reparsed));
}

#[test]
fn tests_reconstrucao_consome_regras_exatamente() {
    let snapshot = parse(VALID).expect("snapshot valido");
    let reconstruction = reconstruct(&base_catalog(), &snapshot).expect("reconstrucao valida");
    assert_eq!(reconstruction.regions.len(), 2);
    assert_eq!(
        reconstruction
            .regions
            .iter()
            .find(|region| region.key == "a.b.um")
            .map(|region| region.hash.as_str()),
        Some("fnv1a64:00000000000000ff")
    );
    assert_eq!(reconstruction.ledger.len(), 2);
    assert!(reconstruction
        .ledger
        .iter()
        .all(|entry| entry.consumed == entry.expected));
}

#[test]
fn tests_medida_e_independente_da_ordem_de_entrada() {
    let mut invertido = base_catalog();
    invertido.reverse();
    assert_eq!(measure(&base_catalog()), measure(&invertido));
}

#[test]
fn tests_schema_desconhecido_e_falha_de_harness() {
    let text = VALID.replace("schema = 1", &format!("schema = {}", SNAPSHOT_SCHEMA + 1));
    match parse(&text) {
        Err(HarnessFailure::SchemaUnknown { found, .. }) => {
            assert_eq!(found, SNAPSHOT_SCHEMA + 1)
        }
        outro => panic!("esperado schema desconhecido, veio {outro:?}"),
    }
}

#[test]
fn tests_chave_desconhecida_e_rejeitada() {
    let text = format!("{}extra = 1\n", VALID);
    assert!(matches!(
        parse(&text),
        Err(HarnessFailure::InvalidField { .. })
    ));
}

#[test]
fn tests_chave_duplicada_e_rejeitada() {
    let text = VALID.replace(
        "state = \"FROZEN\"",
        "state = \"FROZEN\"\nstate = \"FROZEN\"",
    );
    assert!(matches!(parse(&text), Err(HarnessFailure::Toml(_))));
}

#[test]
fn tests_hash_invalido_e_rejeitado() {
    let text = VALID.replace("fnv1a64:0000000000000000", "fnv1a64:XYZ");
    assert!(matches!(
        parse(&text),
        Err(HarnessFailure::HashInvalid { .. })
    ));
}

#[test]
fn tests_falha_de_harness_nao_produz_medida_observada() {
    let text = VALID.replace("key = \"a.b.um\"", "key = \"a.b.inexistente\"");
    let snapshot = parse(&text).expect("snapshot valido");
    let report = verify(&snapshot, &base_catalog());
    assert!(matches!(report.outcome, Outcome::HarnessFailure(_)));
    assert!(report.observed.is_none());
}


#[test]
fn medida_de_um_catalogo_conhecido() {
    let one = vec![region("x", "a.rs", "fnv1a64:0000000000000001")];
    let m = measure(&one);
    let record = "(1, \"x\", \"region\", Some(\"dominio\"), Some(\"camada\"), \"a.rs\", \"Resumo de x.\", \"fnv1a64:0000000000000001\", \"active\")\n";
    assert_eq!(m.regions, 1);
    assert_eq!(m.length, record.len() as u64);
    let mut h: u64 = 0xcbf2_9ce4_8422_2325;
    for b in record.bytes() {
        h = (h ^ u64::from(b)).wrapping_mul(0x0000_0100_0000_01b3);
    }
    assert_eq!(m.fnv1a64, h);
    let empty: Vec<CodeRegion> = Vec::new();
    assert_eq!(measure(&empty), Measures { regions: 0, length: 0, fnv1a64: 0xcbf2_9ce4_8422_2325 });
}

#[test]
fn verificacao_sem_divergencia_e_match_e_com_divergencia_e_drift() {
    let snapshot = parse(VALID).expect("snapshot valido");
    let rebuilt = reconstruct(&base_catalog(), &snapshot).expect("reconstrucao valida");
    let observed = rebuilt.measures();
    let mut exact = snapshot.clone();
    exact.measures = observed;
    let report = verify(&exact, &base_catalog());
    assert_eq!(report.outcome, Outcome::Match);
    assert_eq!(report.observed, Some(observed));
    let drift = verify(&snapshot, &base_catalog());
    match &drift.outcome {
        Outcome::Drift(ds) => {
            assert_eq!(ds.len(), 2);
            assert_eq!(ds[0].measure, "length");
            assert_eq!(ds[0].expected, "0");
            assert_eq!(ds[1].measure, "fnv1a64");
        }
        other => panic!("esperado drift, veio {other:?}"),
    }
    let json = json_report(&drift);
    assert!(json.starts_with("{\"schema\":1,\"snapshot\":\"exemplo-historico\",\"state\":\"FROZEN\",\"predecessor\":\"exemplo-anterior\",\"outcome\":\"DRIFT\""));
    assert!(json.ends_with("\"consumption\":[{\"op\":\"exclude-key\",\"selector\":\"posterior.novo\",\"expected\":1,\"consumed\":1},{\"op\":\"override-hash\",\"selector\":\"a.b.um\",\"expected\":1,\"consumed\":1}]}"));
    let human = human_report(&drift);
    assert!(human.starts_with("snapshot exemplo-historico [FROZEN] DRIFT\npredecessor: exemplo-anterior\n"));
    assert!(human.ends_with("consumo exclude-key posterior.novo: 1/1\nconsumo override-hash a.b.um: 1/1\n"));
}

#[test]
fn falha_de_harness_no_relatorio_tem_codigo_e_mensagem() {
    let text = VALID.replace("key = \"a.b.um\"", "key = \"a.b.inexistente\"");
    let snapshot = parse(&text).expect("snapshot valido");
    let report = verify(&snapshot, &base_catalog());
    let json = json_report(&report);
    assert!(json.contains("\"observed\":null"));
    assert!(json.contains("\"failure\":{\"code\":\"E-SNAP-REGIAO-REMOVIDA\",\"message\":\"E-SNAP-REGIAO-REMOVIDA região 'a.b.inexistente' removida do catálogo: o override não tem correspondência\"}"));
    let human = human_report(&report);
    assert!(human.contains("harness E-SNAP-REGIAO-REMOVIDA\nharness região 'a.b.inexistente' removida"));
}

#[test]
fn erros_de_toml_dizem_a_linha() {
    match parse("schema = 1\nid = \"a\n") {
        Err(HarnessFailure::Toml(e)) => {
            assert_eq!(e.line, 2);
            assert_eq!(e.msg, "string incompleta: aspas de fechamento ausentes");
            assert_eq!(e.message(), "linha 2: string incompleta: aspas de fechamento ausentes");
        }
        other => panic!("esperado erro de TOML, veio {other:?}"),
    }
    match parse("[medidas]\n") {
        Err(HarnessFailure::Toml(e)) => assert_eq!(e.msg, "seção desconhecida '[medidas]'"),
        other => panic!("esperado erro de TOML, veio {other:?}"),
    }
    match parse("regions = -1\n") {
        Err(HarnessFailure::Toml(e)) => assert_eq!(e.msg, "número negativo não é aceito: '-1'"),
        other => panic!("esperado erro de TOML, veio {other:?}"),
    }
    match parse("regions = 99999999999999999999\n") {
        Err(HarnessFailure::Toml(e)) => assert_eq!(e.msg, "overflow de inteiro em '99999999999999999999'"),
        other => panic!("esperado erro de TOML, veio {other:?}"),
    }
}

#[test]
fn orcamento_e_identificadores_sao_validados() {
    let text = VALID.replace("expected_overrides = 1", "expected_overrides = 2");
    assert_eq!(
        parse(&text),
        Err(HarnessFailure::OverrideMissing { declared: 2, found: 1 })
    );
    let text = VALID.replace("id = \"exemplo-historico\"", "id = \"Exemplo\"");
    assert!(matches!(parse(&text), Err(HarnessFailure::IdUnsafe { .. })));
    let text = VALID.replace("predecessor = \"exemplo-anterior\"", "predecessor = \"exemplo-historico\"");
    assert_eq!(
        parse(&text),
        Err(HarnessFailure::PredecessorSelfReference { id: "exemplo-historico".to_string() })
    );
    let err = parse(&VALID.replace("fnv1a64:0000000000000000", "fnv1a64:XYZ")).unwrap_err();
    assert_eq!(err.code(), "E-SNAP-HASH");
    assert_eq!(
        err.message(),
        "E-SNAP-HASH\nhash inválido em 'measures.fnv1a64': 'fnv1a64:XYZ' (esperado fnv1a64:<16 hexadecimais minúsculos>)"
    );
}

#[test]
fn regras_sao_ordenadas_e_recusam_capacidade_fora_do_schema() {
    let snapshot = parse(VALID).expect("snapshot valido");
    assert!(snapshot.validate_model().is_ok());
    assert_eq!(snapshot.relative_path(), ".pinker/projections/exemplo-historico.toml");
    let mut later = snapshot.clone();
    later.rules.push(Rule::ExcludeFile { file: "src/x.rs".to_string(), expected_matches: 1 });
    assert!(matches!(
        later.validate_model(),
        Err(HarnessFailure::CapabilityRequiresSchema { required_schema: 2, .. })
    ));
}


#[test]
fn render_nao_depende_da_ordem_das_regras() {
    let snapshot = parse(VALID).expect("valid");
    let mut swapped = snapshot.clone();
    swapped.rules.reverse();
    assert_eq!(render(&swapped), render(&snapshot));
}

fn materialize(key: &str) -> Rule {
    Rule::MaterializeRegion {
        key: key.to_string(),
        kind: "region".to_string(),
        domain: None,
        layer: None,
        file: "src/a.rs".to_string(),
        summary: "s".to_string(),
        hash: "0000000000000000".to_string(),
        status: "active".to_string(),
    }
}

#[test]
fn validate_rules_reports_the_first_refused_rule() {
    let exclude_file = Rule::ExcludeFile { file: "src/a.rs".to_string(), expected_matches: 1 };
    let exclude_key = Rule::ExcludeKey { key: "a.b".to_string(), expected_matches: 1 };
    assert_eq!(validate_rules(1, &[exclude_key.clone()], SchemaAuthority::Snapshot), Ok(()));
    assert_eq!(
        validate_rules(9, &[exclude_key.clone()], SchemaAuthority::Snapshot),
        Err(HarnessFailure::SchemaUnknown { authority: SchemaAuthority::Snapshot, found: 9 })
    );
    assert_eq!(
        validate_rules(1, &[exclude_key.clone(), exclude_file.clone(), materialize("x.y")], SchemaAuthority::Snapshot),
        Err(HarnessFailure::CapabilityRequiresSchema {
            authority: SchemaAuthority::Snapshot,
            capability: "op 'exclude-file'".to_string(),
            found_schema: 1,
            required_schema: 2,
        })
    );
    assert_eq!(
        validate_rules(3, &[exclude_file.clone(), materialize("x.y")], SchemaAuthority::Recipe),
        Err(HarnessFailure::OperationOutsideAuthority {
            authority: SchemaAuthority::Recipe,
            op: "materialize-region".to_string(),
        })
    );
    assert_eq!(validate_rules(4, &[exclude_file, materialize("x.y")], SchemaAuthority::Snapshot), Ok(()));
}

const UNORDERED: &str = "# comentario\nschema = 4\nid = \"fora-de-ordem\"\nstate = \"CANDIDATE\"\njustification = \"aspas \\\" barra \\\\ quebra \\n tab \\t fim\"   # nota\n\n[measures]\nfnv1a64 = \"fnv1a64:00000000000000ab\"\nlength = 7\nregions = 1\n\n[reconstruction]\nexpected_exclusions = 1\nexpected_overrides = 1\nexpected_materializations = 0\n\n[[rules]]\nop = \"override-hash\"\nto = \"fnv1a64:00000000000000ff\"\nfrom = \"fnv1a64:0000000000000001\"\nkey = \"a.b.um\"\n\n[[rules]]\nop = \"exclude-key\"\nexpected_matches = 2\nkey = \"posterior.novo\"\n";

#[test]
fn render_of_parsed_snapshot_reads_back_the_same_snapshot() {
    let snapshot = parse(UNORDERED).expect("snapshot valido");
    assert_eq!(snapshot.justification.as_deref(), Some("aspas \" barra \\ quebra \n tab \t fim"));
    assert_eq!(snapshot.rules[0].op(), "exclude-key");
    let rendered = render(&snapshot);
    assert!(rendered.contains("justification = \"aspas \\\" barra \\\\ quebra \\n tab \\t fim\"\n"));
    assert!(!rendered.contains("expected_materializations"));
    let reparsed = parse(&rendered).expect("render canônico volta a interpretar");
    assert_eq!(reparsed, snapshot);
    assert_eq!(render(&reparsed), rendered);
}
