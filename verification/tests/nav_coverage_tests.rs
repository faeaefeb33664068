use pinker_nav::nav_coverage::{
    inventory, merge_intervals, relevant_within, render_intervals, render_json, summarize,
    uncovered_relevant, verify, Completeness, CoveragePolicy, CoverageViolation, Enforcement,
    FileDisposition, LineInterval, PolicyError,
};
use pinker_nav::nav::{CodeIndex, MarkerDialect, OfficialSourceFile};

const SCOPES: &str = "{\"schema\":1,\"kind\":\"scope\",\"root\":\"src\",\"category\":\"production\",\"file_enforcement\":\"required\"}\n{\"schema\":1,\"kind\":\"scope\",\"root\":\"runtime/pinker_rt/src\",\"category\":\"production\",\"file_enforcement\":\"required\"}\n{\"schema\":1,\"kind\":\"scope\",\"root\":\"tests\",\"category\":\"evidence\",\"file_enforcement\":\"inventory\"}\n{\"schema\":1,\"kind\":\"scope\",\"root\":\"apps\",\"category\":\"example\",\"file_enforcement\":\"inventory\"}\n";

#[test]
fn politica_exige_exatamente_as_raizes_oficiais() {
    let faltando = SCOPES.lines().take(3).collect::<Vec<_>>().join("\n");
    assert!(matches!(
        CoveragePolicy::parse(&faltando),
        Err(PolicyError::ScopeRootsMismatch { .. })
    ));
    assert!(CoveragePolicy::parse(SCOPES).is_ok());
}

#[test]
fn excecao_ampla_e_recusada_na_carga() {
    for amplo in ["src/bin/*.rs", "src/bin/", "/src/bin/a.rs", "src/../src/a.rs"] {
        let text = format!(
            "{SCOPES}{{\"schema\":1,\"kind\":\"exception\",\"path\":\"{amplo}\",\"reason\":\"r\",\"review\":\"v\"}}\n"
        );
        assert!(
            matches!(
                CoveragePolicy::parse(&text),
                Err(PolicyError::BroadException { .. })
            ),
            "aceitou exceção ampla: {amplo}"
        );
    }
}

#[test]
fn excecao_estreita_exige_razao_e_condicao_de_revisao() {
    let sem_revisao = format!(
        "{SCOPES}{}\n",
        r#"{"schema":1,"kind":"exception","path":"src/a.rs","reason":"r"}"#
    );
    assert!(matches!(
        CoveragePolicy::parse(&sem_revisao),
        Err(PolicyError::MissingField { .. })
    ));
    let completa = format!(
        "{SCOPES}{}\n",
        r#"{"schema":1,"kind":"exception","path":"src/a.rs","reason":"r","review":"v"}"#
    );
    let policy = CoveragePolicy::parse(&completa).expect("política válida");
    assert_eq!(policy.exceptions.len(), 1);
}

#[test]
fn disposicao_exige_destino_coerente_com_o_tipo() {
    let movida_sem_destino = format!(
        "{SCOPES}{}\n",
        r#"{"schema":1,"kind":"disposition","key":"a.b","disposition":"moved","reason":"r","review":"v"}"#
    );
    assert!(matches!(
        CoveragePolicy::parse(&movida_sem_destino),
        Err(PolicyError::MissingField { .. })
    ));
    let aposentada_com_destino = format!(
        "{SCOPES}{}\n",
        r#"{"schema":1,"kind":"disposition","key":"a.b","disposition":"retired","to":["c.d"],"reason":"r","review":"v"}"#
    );
    assert!(matches!(
        CoveragePolicy::parse(&aposentada_com_destino),
        Err(PolicyError::MissingField { .. })
    ));
}

#[test]
fn registro_desconhecido_nao_e_ignorado_em_silencio() {
    let text = format!("{SCOPES}{}\n", r#"{"schema":1,"kind":"ignorar-tudo"}"#);
    assert!(matches!(
        CoveragePolicy::parse(&text),
        Err(PolicyError::UnknownKind { .. })
    ));
}

#[test]
fn intervalos_descobertos_sao_corridas_maximais_de_linhas_relevantes() {
    let relevant = [true, true, false, true, true, true, false, true];
    let covered = [LineInterval { start: 4, end: 5 }];
    assert_eq!(
        uncovered_relevant(&relevant, &covered),
        vec![
            LineInterval { start: 1, end: 2 },
            LineInterval { start: 6, end: 6 },
            LineInterval { start: 8, end: 8 },
        ]
    );
}

#[test]
fn intervalos_cobertos_sobrepostos_sao_unidos() {
    let merged = merge_intervals(vec![
        LineInterval { start: 10, end: 20 },
        LineInterval { start: 1, end: 5 },
        LineInterval { start: 6, end: 9 },
    ]);
    assert_eq!(merged, vec![LineInterval { start: 1, end: 20 }]);
}

#[test]
fn coverage_merge_drops_empty_and_line_zero_intervals() {
    let merged = merge_intervals(vec![
        LineInterval { start: 5, end: 3 },
        LineInterval { start: 0, end: 4 },
        LineInterval { start: 7, end: 8 },
        LineInterval { start: 2, end: 3 },
    ]);
    assert_eq!(
        merged,
        vec![LineInterval { start: 2, end: 3 }, LineInterval { start: 7, end: 8 }]
    );
}

#[test]
fn coverage_interval_len_and_emptiness() {
    assert_eq!(LineInterval { start: 3, end: 7 }.len(), 5);
    assert_eq!(LineInterval { start: 7, end: 3 }.len(), 1);
    assert!(LineInterval { start: 7, end: 3 }.is_empty());
    assert!(!LineInterval { start: 3, end: 3 }.is_empty());
}

#[test]
fn coverage_relevant_within_counts_only_existing_relevant_lines() {
    let relevant = [true, false, true, true];
    assert_eq!(relevant_within(&relevant, LineInterval { start: 1, end: 3 }), 2);
    assert_eq!(relevant_within(&relevant, LineInterval { start: 3, end: 10 }), 2);
    assert_eq!(relevant_within(&relevant, LineInterval { start: 9, end: 3 }), 0);
}

#[test]
fn coverage_policy_errors_have_stable_messages() {
    let text = format!("{SCOPES}{}\n", r#"{"schema":1,"kind":"ignorar-tudo"}"#);
    let err = CoveragePolicy::parse(&text).unwrap_err();
    assert_eq!(
        err.message(),
        "E-COVERAGE-POLICY-KIND: linha 5: registro desconhecido 'ignorar-tudo'"
    );
    let dup = format!("{SCOPES}{}", SCOPES.lines().next().unwrap());
    assert!(matches!(
        CoveragePolicy::parse(&dup),
        Err(PolicyError::DuplicateScope { .. })
    ));
    let rebaixada = SCOPES.replace(
        r#""root":"src","category":"production","file_enforcement":"required""#,
        r#""root":"src","category":"production","file_enforcement":"inventory""#,
    );
    assert!(matches!(
        CoveragePolicy::parse(&rebaixada),
        Err(PolicyError::ScopeContractMismatch { .. })
    ));
}

#[test]
fn coverage_inventory_keeps_zero_anchor_files_visible() {
    let policy = CoveragePolicy::parse(&format!(
        "{SCOPES}{}\n",
        r#"{"schema":1,"kind":"exception","path":"src/gone.rs","reason":"r","review":"v"}"#
    ))
    .unwrap();
    let sources = vec![
        OfficialSourceFile {
            path: "src/a.rs".to_string(),
            root: "src".to_string(),
            dialect: MarkerDialect::Rust,
        },
        OfficialSourceFile {
            path: "tests/t.rs".to_string(),
            root: "tests".to_string(),
            dialect: MarkerDialect::Rust,
        },
    ];
    let texts = vec!["fn a() {}\n\n// nota\nfn b() {}\n".to_string(), "fn t() {}\n".to_string()];
    let index = CodeIndex::default();
    let inv = inventory(&sources, &texts, &index, &policy);
    assert_eq!(inv.files.len(), 2);
    let a = &inv.files[0];
    assert_eq!(a.relevant_lines, 2);
    assert_eq!(a.covered_relevant_lines, 0);
    assert_eq!(a.uncovered_relevant_lines, 2);
    assert_eq!(
        a.uncovered_relevant_intervals,
        vec![LineInterval { start: 1, end: 1 }, LineInterval { start: 4, end: 4 }]
    );
    assert_eq!(a.completeness, Completeness::Absent);
    assert_eq!(a.disposition, FileDisposition::Gap);
    assert_eq!(inv.files[1].disposition, FileDisposition::InventoryOnly);
    assert_eq!(inv.files[1].file_enforcement, Enforcement::Inventory);
    let violations = verify(&inv, &index, &policy);
    assert_eq!(
        violations,
        vec![
            CoverageViolation::UncoveredProductionFile { path: "src/a.rs".to_string() },
            CoverageViolation::StaleException { path: "src/gone.rs".to_string() },
            CoverageViolation::UncoveredRelevantInterval {
                path: "src/a.rs".to_string(),
                uncovered_lines: 2,
                intervals: 2,
                first: LineInterval { start: 1, end: 1 },
            },
        ]
    );
    let summaries = summarize(&inv);
    assert_eq!(summaries.len(), 2);
    assert_eq!(summaries[0].root, "src");
    assert_eq!(summaries[0].gaps, 1);
    assert_eq!(summaries[1].root, "tests");
    let json = render_json(&inv);
    assert!(json.starts_with("{\"schema\":1,\"policy\":\".pinker/cartography/coverage-policy-v1.jsonl\",\"files\":[{\"path\":\"src/a.rs\""));
    assert_eq!(
        render_intervals(&vec![LineInterval { start: 1, end: 2 }]),
        "[{\"start\":1,\"end\":2}]"
    );
}
