use pinker_nav::nav_projection_rename_map::{parse_rename_map, RENAME_MAP_SCHEMA};

const MAP: &str = "schema = 2\n\n[[rename]]\ncurrent_key = \"b.novo\"\nhistorical_key = \"b.velho\"\n\n[[rename]]\ncurrent_key = \"a.atual\"\ncurrent_summary = \"novo resumo\"\nhistorical_summary = \"resumo antigo\"\n";

#[test]
fn map_is_read_in_the_order_of_current_keys() {
    assert_eq!(RENAME_MAP_SCHEMA, 2);
    let map = parse_rename_map(MAP).expect("mapa válido");
    assert_eq!(map.schema, 2);
    let keys: Vec<&str> = map.entries.iter().map(|e| e.current_key.as_str()).collect();
    assert_eq!(keys, vec!["a.atual", "b.novo"]);
    let b = map.by_historical_key("b.velho").expect("b.velho mapeada");
    assert_eq!(b.current_key, "b.novo");
    assert!(b.restores_identity());
    let a = map.by_current_key("a.atual").expect("a.atual mapeada");
    assert!(!a.restores_identity());
    assert_eq!(a.historical_summary.as_deref(), Some("resumo antigo"));
    assert!(map.by_historical_key("a.atual").is_none());
    assert!(map.by_current_key("b.velho").is_none());
    assert_eq!(
        b.canonical(),
        "current_key=b.novo;historical_key=b.velho;current_domain=;historical_domain=;current_layer=;historical_layer=;current_summary=;historical_summary=;"
    );
}

#[test]
fn map_refuses_ambiguity_and_empty_restorations() {
    assert_eq!(
        parse_rename_map(&MAP.replace("schema = 2", "schema = 1")),
        Err("rename[1].current_summary exige schema 2; o mapa declara schema 1".to_string())
    );
    assert_eq!(
        parse_rename_map(&MAP.replace("schema = 2", "schema = 3")),
        Err("schema 3 desconhecido para mapa de renomeação; este formato aceita 1 e 2".to_string())
    );
    assert_eq!(
        parse_rename_map("schema = 2\n"),
        Err("o mapa de renomeação precisa declarar ao menos uma entrada".to_string())
    );
    assert_eq!(
        parse_rename_map(&format!("{MAP}\n[measures]\nregions = 1\n")),
        Err("o mapa de renomeação não tem seção de reconstrução nem de medidas".to_string())
    );
    assert_eq!(
        parse_rename_map(&MAP.replace("a.atual", "b.novo")),
        Err("chave corrente 'b.novo' declarada em duas entradas".to_string())
    );
    let swap = "schema = 1\n\n[[rename]]\ncurrent_key = \"x\"\nhistorical_key = \"y\"\n\n[[rename]]\ncurrent_key = \"y\"\nhistorical_key = \"z\"\n";
    assert_eq!(
        parse_rename_map(swap),
        Err("'y' aparece como identidade histórica e como chave corrente no mesmo mapa".to_string())
    );
    let nothing = "schema = 1\n\n[[rename]]\ncurrent_key = \"x\"\n";
    assert_eq!(parse_rename_map(nothing), Err("rename[0].não declara nenhuma restauração".to_string()));
    let half = "schema = 1\n\n[[rename]]\ncurrent_key = \"x\"\ncurrent_domain = \"d\"\n";
    assert_eq!(
        parse_rename_map(half),
        Err("rename[0].current_domain e historical_domain precisam vir juntos".to_string())
    );
    let same = "schema = 1\n\n[[rename]]\ncurrent_key = \"x\"\ncurrent_layer = \"l\"\nhistorical_layer = \"l\"\n";
    assert_eq!(
        parse_rename_map(same),
        Err("rename[0].historical_layer repete o valor corrente e não restaura nada".to_string())
    );
    let echo = "schema = 1\n\n[[rename]]\ncurrent_key = \"x\"\nhistorical_key = \"x\"\n";
    assert_eq!(
        parse_rename_map(echo),
        Err("rename[0].historical_key repete a chave corrente e não restaura nada".to_string())
    );
    let blank = "schema = 1\n\n[[rename]]\ncurrent_key = \"\"\nhistorical_key = \"x\"\n";
    assert_eq!(parse_rename_map(blank), Err("rename[0].current_key vazio".to_string()));
    let rules = "schema = 1\n\n[[rules]]\ncurrent_key = \"x\"\n";
    assert!(parse_rename_map(rules).unwrap_err().starts_with("linha 3: "));
}
