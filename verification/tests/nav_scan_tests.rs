use pinker_nav::nav::{CatalogError, CodeCatalog, CodeIndex, MarkerDialect, NavVerifyError};
use pinker_nav::nav_scan::scan_file;

const SAMPLE: &str = "// @pinker-nav:start cfg.logic.short-circuit\n// @pinker-nav:domain logica\n// @pinker-nav:layer cfg\n// @pinker-nav:summary Curto-circuito.\nfn curto() {\n    let x = 1;\n}\n// @pinker-nav:end cfg.logic.short-circuit\n";

fn scan_one(file: &str, text: &str) -> CodeIndex {
    let mut index = CodeIndex::default();
    scan_file(file, text, MarkerDialect::Rust, &mut index);
    index
}

#[test]
fn scans_region_with_metadata() {
    let index = scan_one("cfg_ir.rs", SAMPLE);
    assert_eq!(index.regions.len(), 1);
    let r = &index.regions[0];
    assert_eq!(r.key, "cfg.logic.short-circuit");
    assert_eq!(r.domain.as_deref(), Some("logica"));
    assert_eq!(r.layer.as_deref(), Some("cfg"));
    assert_eq!(r.summary, "Curto-circuito.");
    assert_eq!(r.file, "cfg_ir.rs");
    assert_eq!(r.start_marker, 1);
    assert_eq!(r.content_start, 5);
    assert_eq!(r.content_end, 7);
    assert_eq!(r.end_marker, 8);
    assert_eq!(r.kind, "region");
    assert_eq!(r.status, "active");
    assert_eq!(r.hash, pinker_nav::nav::fnv1a64("fn curto() {\n    let x = 1;\n}"));
    assert!(index.verify().is_empty());
}

#[test]
fn jsonl_deterministic() {
    let index = scan_one("cfg_ir.rs", SAMPLE);
    assert_eq!(index.render_jsonl(), index.render_jsonl());
    assert!(index.render_jsonl().contains("\"key\":\"cfg.logic.short-circuit\""));
}

#[test]
fn jsonl_line_has_fixed_field_order() {
    let index = scan_one("cfg_ir.rs", SAMPLE);
    let hash = pinker_nav::nav::fnv1a64("fn curto() {\n    let x = 1;\n}");
    let expected = format!(
        "{{\"schema\":1,\"key\":\"cfg.logic.short-circuit\",\"kind\":\"region\",\"domain\":\"logica\",\"layer\":\"cfg\",\"file\":\"cfg_ir.rs\",\"start_marker\":1,\"content_start\":5,\"content_end\":7,\"end_marker\":8,\"summary\":\"Curto-circuito.\",\"hash\":\"{}\",\"status\":\"active\"}}\n",
        hash
    );
    assert_eq!(index.render_jsonl(), expected);
}

#[test]
fn jsonl_is_sorted_by_key_then_file() {
    let mut index = CodeIndex::default();
    scan_file("b.rs", "// @pinker-nav:start z.a\nx\n// @pinker-nav:end z.a\n", MarkerDialect::Rust, &mut index);
    scan_file("a.rs", "// @pinker-nav:start z.a\ny\n// @pinker-nav:end z.a\n// @pinker-nav:start m.b\nz\n// @pinker-nav:end m.b\n", MarkerDialect::Rust, &mut index);
    let out = index.render_jsonl();
    let keys: Vec<(String, String)> = out
        .lines()
        .map(|l| {
            let k = l.split("\"key\":\"").nth(1).unwrap().split('"').next().unwrap().to_string();
            let f = l.split("\"file\":\"").nth(1).unwrap().split('"').next().unwrap().to_string();
            (k, f)
        })
        .collect();
    assert_eq!(
        keys,
        vec![
            ("m.b".to_string(), "a.rs".to_string()),
            ("z.a".to_string(), "a.rs".to_string()),
            ("z.a".to_string(), "b.rs".to_string())
        ]
    );
    match &index.verify()[..] {
        [NavVerifyError::DuplicateKey { key, files }] => {
            assert_eq!(key, "z.a");
            assert_eq!(files, &vec!["b.rs".to_string(), "a.rs".to_string()]);
        }
        other => panic!("esperada uma chave duplicada, veio {:?}", other),
    }
}

#[test]
fn start_without_end_detected() {
    let index = scan_one("a.rs", "// @pinker-nav:start x.y\nfn a() {}\n");
    assert!(index.verify().iter().any(|e| matches!(e, NavVerifyError::StartWithoutEnd { .. })));
    assert_eq!(
        index.scan_problems,
        vec![NavVerifyError::StartWithoutEnd { key: "x.y".to_string(), file: "a.rs".to_string(), line: 1 }]
    );
}

#[test]
fn key_mismatch_detected() {
    let index = scan_one("a.rs", "// @pinker-nav:start x.y\nfn a() {}\n// @pinker-nav:end x.z\n");
    assert!(index.verify().iter().any(|e| matches!(e, NavVerifyError::KeyMismatch { .. })));
}

#[test]
fn overlap_detected() {
    let index = scan_one(
        "a.rs",
        "// @pinker-nav:start a.b\nfn a() {\n// @pinker-nav:start c.d\nlet x=1;\n// @pinker-nav:end c.d\n}\n// @pinker-nav:end a.b\n",
    );
    assert!(index.verify().iter().any(|e| matches!(e, NavVerifyError::Overlap { .. })));
}

#[test]
fn invalid_key_detected() {
    let index = scan_one("a.rs", "// @pinker-nav:start Bad_Key\nfn a() {}\n// @pinker-nav:end Bad_Key\n");
    assert!(index.verify().iter().any(|e| matches!(e, NavVerifyError::InvalidKey { .. })));
    assert!(index.regions.is_empty());
}

#[test]
fn end_without_start_and_empty_region_are_reported() {
    let index = scan_one("a.rs", "// @pinker-nav:end q.r\n// @pinker-nav:start e.v\n\n// @pinker-nav:end e.v\n");
    assert_eq!(
        index.scan_problems,
        vec![
            NavVerifyError::EndWithoutStart { key: "q.r".to_string(), file: "a.rs".to_string(), line: 1 },
            NavVerifyError::EmptyRange { key: "e.v".to_string(), file: "a.rs".to_string() },
        ]
    );
}

#[test]
fn marker_inside_string_is_not_a_region() {
    let index = scan_one("a.rs", "let s = \"\n// @pinker-nav:start x.y\n\";\n");
    assert!(index.regions.is_empty());
    assert!(index.scan_problems.is_empty());
}

#[test]
fn metadata_errors_and_links_are_checked() {
    let text = "// @pinker-nav:start a.b\n// @pinker-nav:phase abc\n// @pinker-nav:colour red\n// @pinker-nav:symbol m::f|f|rust-function|declaration\n// @pinker-nav:symbol m::f|f|rust-function|declaration\n// @pinker-nav:test-for m::g\nfn f() {}\n// @pinker-nav:end a.b\n";
    let index = scan_one("a.rs", text);
    let problems = index.verify();
    assert_eq!(
        problems,
        vec![
            NavVerifyError::MalformedMeta { key: "a.b".to_string(), file: "a.rs".to_string(), field: "phase".to_string() },
            NavVerifyError::MalformedMeta { key: "a.b".to_string(), file: "a.rs".to_string(), field: "colour".to_string() },
            NavVerifyError::MalformedMeta { key: "a.b".to_string(), file: "a.rs".to_string(), field: "symbol".to_string() },
            NavVerifyError::MissingSymbolTarget { region: "a.b".to_string(), field: "test-for".to_string(), identity: "m::g".to_string() },
            NavVerifyError::InvalidTestLink { region: "a.b".to_string(), identity: "m::g".to_string(), layer: None },
        ]
    );
}

#[test]
fn conflicting_identity_lists_the_regions() {
    let text = "// @pinker-nav:start a.b\n// @pinker-nav:symbol m::f|f|rust-function|declaration\nx\n// @pinker-nav:end a.b\n// @pinker-nav:start c.d\n// @pinker-nav:symbol m::f|g|rust-function|implementation\ny\n// @pinker-nav:end c.d\n";
    let index = scan_one("a.rs", text);
    assert_eq!(
        index.verify(),
        vec![NavVerifyError::ConflictingSymbolIdentity {
            identity: "m::f".to_string(),
            regions: vec!["a.b".to_string(), "c.d".to_string()]
        }]
    );
}

#[test]
fn catalog_reads_back_what_was_rendered() {
    let index = scan_one("cfg_ir.rs", SAMPLE);
    let text = index.render_jsonl();
    let catalog = CodeCatalog::parse(&text, "nav.jsonl").expect("catálogo válido");
    assert_eq!(catalog.regions, index.regions);
}

#[test]
fn catalog_refuses_unknown_schema_with_line_number() {
    match CodeCatalog::parse("\n{\"schema\":2,\"key\":\"a\"}\n", "nav.jsonl") {
        Err(CatalogError::Invalid { path, line, msg }) => {
            assert_eq!(path, "nav.jsonl");
            assert_eq!(line, 2);
            assert_eq!(msg, "schema 2 não suportado");
        }
        other => panic!("esperado catálogo inválido, veio {:?}", other.map(|c| c.regions.len())),
    }
    match CodeCatalog::parse("{\"schema\":1,\"file\":\"a.rs\"}\n", "nav.jsonl") {
        Err(CatalogError::Invalid { line, msg, .. }) => {
            assert_eq!(line, 1);
            assert_eq!(msg, "região sem campo 'key'");
        }
        other => panic!("esperado catálogo inválido, veio {:?}", other.map(|c| c.regions.len())),
    }
}

#[test]
fn divergence_messages_are_stable() {
    let e = NavVerifyError::DuplicateKey { key: "a.b".to_string(), files: vec!["x.rs".to_string(), "y.rs".to_string()] };
    assert_eq!(e.message(), "chave duplicada 'a.b' em: x.rs, y.rs");
    let e = NavVerifyError::InvalidKey { key: "Bad".to_string(), file: "a.rs".to_string(), line: 3 };
    assert_eq!(e.message(), "chave inválida 'Bad' em a.rs:3 (formato [a-z0-9]+([._-][a-z0-9]+)*)");
    let e = NavVerifyError::InvalidTestLink { region: "r".to_string(), identity: "m::f".to_string(), layer: None };
    assert_eq!(e.message(), "vínculo de teste da região 'r' para 'm::f' exige layer evidence; encontrado sem layer");
    let c = CatalogError::Invalid { path: "n.jsonl".to_string(), line: 2, msg: "x".to_string() };
    assert_eq!(c.message(), "E-NAV-CATALOG\nCatálogo de código inválido em 'n.jsonl' (linha 2): x. Rode `pink nav sincronizar`.");
    let s = pinker_nav::nav::ScanError::RootMissing { path: "apps".to_string() };
    assert_eq!(s.message(), "E-NAV-SCAN\nRaiz de código obrigatória ausente: 'apps'.");
}

#[test]
fn pinker_dialect_scan_ignores_marker_in_triple_string() {
    let mut index = CodeIndex::default();
    let text = "x = \"\"\"\n// @pinker-nav:start a.b\n\"\"\"\n// @pinker-nav:start c.d\nfuncao f() {}\n// @pinker-nav:end c.d\n";
    scan_file("apps/a.pink", text, MarkerDialect::Pinker, &mut index);
    assert_eq!(index.regions.len(), 1);
    assert_eq!(index.regions[0].key, "c.d");
    assert_eq!(index.regions[0].start_marker, 4);
    assert!(index.scan_problems.is_empty());
}

const LINKED: &str = "// @pinker-nav:start m.links\n// @pinker-nav:phase 7\n// @pinker-nav:symbol m::f|f|rust-function|declaration\n// @pinker-nav:symbol m::T|T|rust-type|implementation\n// @pinker-nav:related-symbol m::g\n// @pinker-nav:test-for m::h\n// @pinker-nav:symbol-doc m::f|doc.m-f\n// @pinker-nav:summary Ligacoes \"entre aspas\" e \\ barra.\nfn f() {}\n// @pinker-nav:end m.links\n";

#[test]
fn catalog_reads_back_regions_with_links_from_several_files() {
    let mut index = CodeIndex::default();
    scan_file("z.rs", LINKED, MarkerDialect::Rust, &mut index);
    scan_file("a.rs", SAMPLE, MarkerDialect::Rust, &mut index);
    scan_file("b.rs", LINKED, MarkerDialect::Rust, &mut index);
    assert!(index.scan_problems.is_empty());
    assert_eq!(index.regions.len(), 3);
    let linked = &index.regions[0];
    assert_eq!(linked.symbols.len(), 2);
    assert_eq!(linked.related_symbols, vec!["m::g".to_string()]);
    assert_eq!(linked.test_for, vec!["m::h".to_string()]);
    assert_eq!(linked.symbol_docs.len(), 1);
    assert_eq!(linked.phase, Some(7));
    let text = index.render_jsonl();
    let catalog = CodeCatalog::parse(&text, "nav.jsonl").expect("catálogo válido");
    let expected = vec![index.regions[1].clone(), index.regions[2].clone(), index.regions[0].clone()];
    assert_eq!(catalog.regions, expected);
    let again = CodeIndex { regions: catalog.regions.clone(), scan_problems: Vec::new() };
    assert_eq!(again.render_jsonl(), text);
}

#[test]
fn jsonl_does_not_depend_on_region_order() {
    let mut index = CodeIndex::default();
    scan_file("z.rs", LINKED, MarkerDialect::Rust, &mut index);
    scan_file("a.rs", SAMPLE, MarkerDialect::Rust, &mut index);
    scan_file("b.rs", LINKED, MarkerDialect::Rust, &mut index);
    let text = index.render_jsonl();
    let mut reversed = index.regions.clone();
    reversed.reverse();
    let other = CodeIndex { regions: reversed, scan_problems: Vec::new() };
    assert_eq!(other.render_jsonl(), text);
    assert_eq!(text.lines().count(), 3);
    assert!(text.ends_with('\n'));
}
