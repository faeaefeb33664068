use pinker_nav::nav::{
    marker_comment_pinker, official_scan_roots, parse_marker, valid_key, MarkerDialect,
    PinkerState, START,
};

#[test]
fn valid_key_rules() {
    assert!(valid_key("parser.intrinsecos.resolucao"));
    assert!(valid_key("cfg.logic.short-circuit"));
    assert!(valid_key("a"));
    assert!(!valid_key(""));
    assert!(!valid_key(".a"));
    assert!(!valid_key("a."));
    assert!(!valid_key("a..b"));
    assert!(!valid_key("Ab"));
}

#[test]
fn raizes_oficiais_incluem_apps_com_dialeto_pinker() {
    let roots = official_scan_roots();
    assert_eq!(roots.len(), 4);
    let apps = roots
        .iter()
        .find(|r| r.relative_path == "apps")
        .expect("raiz apps é obrigatória");
    assert_eq!(apps.extensions, vec!["pink".to_string()]);
    assert_eq!(apps.dialect, MarkerDialect::Pinker);
    for r in roots.iter().filter(|r| r.relative_path != "apps") {
        assert_eq!(r.dialect, MarkerDialect::Rust);
        assert_eq!(r.extensions, vec!["rs".to_string()]);
    }
}

#[test]
fn pink_marcador_valido_e_reconhecido() {
    let mut st = PinkerState::Code;
    assert_eq!(
        marker_comment_pinker("// @pinker-nav:start a.b", &mut st),
        Some("// @pinker-nav:start a.b")
    );
    assert_eq!(st, PinkerState::Code);
}

#[test]
fn pink_espacos_antes_do_marcador_sao_permitidos() {
    let mut st = PinkerState::Code;
    assert_eq!(
        marker_comment_pinker("    // @pinker-nav:end a.b", &mut st),
        Some("// @pinker-nav:end a.b")
    );
}

#[test]
fn pink_marcador_apos_codigo_e_ignorado() {
    let mut st = PinkerState::Code;
    assert_eq!(
        marker_comment_pinker("carinho f() {} // @pinker-nav:start a.b", &mut st),
        None
    );
}

#[test]
fn pink_string_normal_nao_atravessa_linha() {
    let mut st = PinkerState::Code;
    assert_eq!(marker_comment_pinker("nova s: verso = \"aberta", &mut st), None);
    assert_eq!(st, PinkerState::Code);
    assert_eq!(
        marker_comment_pinker("// @pinker-nav:start a.b", &mut st),
        Some("// @pinker-nav:start a.b")
    );
}

#[test]
fn pink_marcador_dentro_de_string_normal_fechada_e_ignorado() {
    let mut st = PinkerState::Code;
    assert_eq!(marker_comment_pinker("\"// @pinker-nav:start a.b\"", &mut st), None);
    assert_eq!(st, PinkerState::Code);
}

#[test]
fn pink_string_interpolada_ignora_marcador() {
    let mut st = PinkerState::Code;
    assert_eq!(marker_comment_pinker("$\"// @pinker-nav:start a.b\"", &mut st), None);
    assert_eq!(st, PinkerState::Code);
}

#[test]
fn pink_string_tripla_atravessa_linhas_e_ignora_marcador() {
    let mut st = PinkerState::Code;
    assert_eq!(marker_comment_pinker("txt = \"\"\"", &mut st), None);
    assert_eq!(st, PinkerState::TripleString);
    assert_eq!(marker_comment_pinker("// @pinker-nav:start a.b", &mut st), None);
    assert_eq!(st, PinkerState::TripleString);
    assert_eq!(marker_comment_pinker("\"\"\";", &mut st), None);
    assert_eq!(st, PinkerState::Code);
}

#[test]
fn pink_comentario_de_bloco_aninhado_ignora_marcador() {
    let mut st = PinkerState::Code;
    assert_eq!(marker_comment_pinker("/* /* aninhado", &mut st), None);
    assert_eq!(st, PinkerState::BlockComment(2));
    assert_eq!(marker_comment_pinker("// @pinker-nav:start a.b", &mut st), None);
    assert_eq!(st, PinkerState::BlockComment(2));
    assert_eq!(marker_comment_pinker("*/", &mut st), None);
    assert_eq!(st, PinkerState::BlockComment(1));
    assert_eq!(marker_comment_pinker("*/", &mut st), None);
    assert_eq!(st, PinkerState::Code);
}

#[test]
fn pink_variante_doc_comment_nao_e_marcador() {
    let mut st = PinkerState::Code;
    let candidate = marker_comment_pinker("/// @pinker-nav:start a.b", &mut st);
    assert_eq!(candidate, Some("/// @pinker-nav:start a.b"));
    assert_eq!(parse_marker(candidate.unwrap(), START), None);
}
