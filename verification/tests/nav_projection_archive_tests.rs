use pinker_nav::nav_projection_archive::{
    fnv1a64_canonical, frozen_measures, load, parse_index, preserved_states, render_entry_human, render_entry_json,
    render_failure_json, render_inventory_human, render_inventory_json, render_verification_human,
    render_verification_json, require_complete_coverage, verify, verify_entry, ArchiveFailure, EntryOutcome, EntryRead,
    MetadataListing, MetadataRead, PayloadRead, ARCHIVE_SCHEMA, INDEX_PATH,
};

const PAYLOAD: &[u8] = b"linha\n";

fn sha(c: char) -> String {
    std::iter::repeat(c).take(64).collect()
}

fn entry_text(id: &str, fnv: &str) -> String {
    format!(
        "[[entries]]\nid = \"{id}\"\nmetadata_path = \".pinker/projections/{id}.toml\"\nmetadata_sha256 = \"{}\"\npayload_path = \".pinker/archive/{id}.stable\"\nregions = 1\nlength = 6\nfnv1a64 = \"{fnv}\"\nsha256 = \"{}\"\n",
        sha('a'),
        sha('b')
    )
}

fn index_text() -> String {
    let fnv = fnv1a64_canonical(PAYLOAD);
    format!(
        "schema = 1\nexport_source_main = \"abc\"\nexport_source_tree = \"def\"\nexport_method = \"materializado\"\nprovenance = \"bytes exatos\"\n\n{}\n{}",
        entry_text("s2", &fnv),
        entry_text("s1", &fnv)
    )
}

fn metadata_text() -> String {
    format!(
        "schema = 2\nid = \"s1\"\n\n[reconstruction]\nexpected_overrides = 3\n\n[measures]\nregions = 1\nlength = 6\nfnv1a64 = \"{}\"\n\n[[rules]]\nexpected_matches = 9\n",
        fnv1a64_canonical(PAYLOAD)
    )
}

fn good_read() -> EntryRead {
    EntryRead {
        metadata: Ok(MetadataRead { sha256: sha('a'), text: Ok(metadata_text()) }),
        payload: Ok(PayloadRead { bytes: PAYLOAD.to_vec(), sha256: sha('b') }),
    }
}

#[test]
fn index_is_read_and_sorted_by_id() {
    let index = parse_index(&index_text()).expect("índice válido");
    assert_eq!(index.schema, ARCHIVE_SCHEMA);
    assert_eq!(index.export_source_main, "abc");
    assert_eq!(index.provenance, "bytes exatos");
    let ids: Vec<&str> = index.entries.iter().map(|e| e.id.as_str()).collect();
    assert_eq!(ids, vec!["s1", "s2"]);
    assert_eq!(index.entries[0].payload_path, ".pinker/archive/s1.stable");
    assert_eq!(index.entries[0].regions, 1);
    let fnv = fnv1a64_canonical(PAYLOAD);
    assert_eq!(
        render_inventory_human(&index),
        format!("arquivo histórico materializado\norigem: abc\nárvore: def\ns1 regioes=1 comprimento=6 {fnv}\ns2 regioes=1 comprimento=6 {fnv}\n")
    );
    let json = render_inventory_json(&index);
    assert!(json.starts_with("{\"schema\":1,\"export_source_main\":\"abc\",\"export_source_tree\":\"def\",\"export_method\":\"materializado\",\"provenance\":\"bytes exatos\",\"entries\":[{\"id\":\"s1\",\"payload\":\".pinker/archive/s1.stable\",\"metadata\":\".pinker/projections/s1.toml\",\"regions\":1,\"length\":6,"));
}

#[test]
fn index_refuses_what_is_outside_its_format() {
    let text = index_text();
    assert_eq!(
        parse_index(&text.replace("schema = 1\n", "")),
        Err(ArchiveFailure::MissingField { scope: String::new(), field: "schema".to_string() })
    );
    assert_eq!(parse_index(&text.replace("schema = 1\n", "schema = 2\n")), Err(ArchiveFailure::UnsupportedSchema { schema: 2 }));
    assert_eq!(
        parse_index(&text.replace("schema = 1\n", "schema = 1\nextra = 1\n")),
        Err(ArchiveFailure::UnknownField { scope: String::new(), field: "extra".to_string() })
    );
    assert_eq!(
        parse_index(&format!("[meta]\n{text}")),
        Err(ArchiveFailure::Malformed { line: 1, msg: "o índice de arquivo não tem seções nomeadas".to_string() })
    );
    assert_eq!(
        parse_index(&text.replace("provenance = \"bytes exatos\"", "provenance = \"sem fim")),
        Err(ArchiveFailure::Malformed { line: 5, msg: "string sem aspas de fechamento".to_string() })
    );
    assert_eq!(
        parse_index(&text.replace("regions = 1\nlength", "regions = -1\nlength")),
        Err(ArchiveFailure::Malformed { line: 12, msg: "valor não reconhecido '-1'".to_string() })
    );
    let head = "schema = 1\nexport_source_main = \"abc\"\nexport_source_tree = \"def\"\nexport_method = \"m\"\nprovenance = \"p\"\n";
    assert_eq!(parse_index(head), Err(ArchiveFailure::Empty));
    assert_eq!(
        parse_index(&head.replace("provenance = \"p\"", "provenance = \"  \"")),
        Err(ArchiveFailure::InvalidValue {
            scope: String::new(),
            field: "provenance".to_string(),
            msg: "proveniência declarada vazia".to_string()
        })
    );
    let fnv = fnv1a64_canonical(PAYLOAD);
    let twice = format!("{head}{}{}", entry_text("s1", &fnv), entry_text("s1", &fnv));
    assert_eq!(parse_index(&twice), Err(ArchiveFailure::DuplicateId { id: "s1".to_string() }));
    let moved = format!("{head}{}", entry_text("s1", &fnv).replace("archive/s1.stable", "archive/outro.stable"));
    assert_eq!(
        parse_index(&moved),
        Err(ArchiveFailure::UnconfinedPath {
            scope: "entries[0].".to_string(),
            field: "payload_path".to_string(),
            path: ".pinker/archive/outro.stable".to_string(),
            msg: "esperado o path canônico '.pinker/archive/s1.stable'".to_string()
        })
    );
    let bad_sha = format!("{head}{}", entry_text("s1", &fnv).replace(&sha('b'), "abc"));
    assert_eq!(
        parse_index(&bad_sha),
        Err(ArchiveFailure::InvalidValue {
            scope: "entries[0].".to_string(),
            field: "sha256".to_string(),
            msg: "esperado SHA-256 em 64 dígitos hexadecimais minúsculos".to_string()
        })
    );
}

#[test]
fn frozen_measures_read_only_the_measures_section() {
    let f = frozen_measures(&metadata_text()).expect("medidas preservadas");
    assert_eq!(f.regions, 1);
    assert_eq!(f.length, 6);
    assert_eq!(f.fnv1a64, fnv1a64_canonical(PAYLOAD));
    assert_eq!(frozen_measures("[measures]\nlength = 1\nfnv1a64 = \"x\"\n"), Err("[measures] não declara regions".to_string()));
    assert_eq!(
        frozen_measures("[measures]\nregions = um\n"),
        Err("regions não é um inteiro: 'um'".to_string())
    );
    assert_eq!(frozen_measures("regions = 1\nlength = 1\nfnv1a64 = \"x\"\n"), Err("[measures] não declara regions".to_string()));
}

#[test]
fn entry_is_intact_missing_or_altered() {
    let index = parse_index(&index_text()).expect("índice válido");
    let entry = &index.entries[0];
    let report = verify_entry(entry, &good_read());
    assert_eq!(report.outcome, EntryOutcome::Intact);
    assert_eq!(report.id, "s1");

    let missing = EntryRead { metadata: Err("sem arquivo".to_string()), payload: good_read().payload };
    assert_eq!(
        verify_entry(entry, &missing).outcome,
        EntryOutcome::Missing { path: ".pinker/projections/s1.toml".to_string(), msg: "sem arquivo".to_string() }
    );

    let altered = EntryRead {
        metadata: good_read().metadata,
        payload: Ok(PayloadRead { bytes: b"linha\nmais\n".to_vec(), sha256: sha('b') }),
    };
    match verify_entry(entry, &altered).outcome {
        EntryOutcome::Altered(ds) => {
            let measures: Vec<&str> = ds.iter().map(|d| d.measure).collect();
            assert_eq!(measures, vec!["length", "regions", "fnv1a64"]);
            assert_eq!(ds[0].expected, "6");
            assert_eq!(ds[0].observed, "11");
            assert_eq!(ds[1].observed, "2");
        },
        other => panic!("esperado ALTERED, veio {:?}", other),
    }

    let recalibrated = EntryRead {
        metadata: Ok(MetadataRead { sha256: sha('c'), text: Ok(metadata_text().replace("length = 6", "length = 7")) }),
        payload: good_read().payload,
    };
    match verify_entry(entry, &recalibrated).outcome {
        EntryOutcome::Altered(ds) => {
            let measures: Vec<&str> = ds.iter().map(|d| d.measure).collect();
            assert_eq!(measures, vec!["metadata_sha256", "frozen_length", "length"]);
        },
        other => panic!("esperado ALTERED, veio {:?}", other),
    }
}

#[test]
fn verification_renders_each_entry() {
    let index = parse_index(&index_text()).expect("índice válido");
    let reads = vec![good_read(), EntryRead { metadata: good_read().metadata, payload: Err("ausente".to_string()) }];
    let v = verify(&index, &reads);
    assert_eq!(v.index_path, INDEX_PATH);
    assert_eq!(v.outcome(), "MISSING");
    let human = render_verification_human(&v);
    let fnv = fnv1a64_canonical(PAYLOAD);
    assert_eq!(
        human,
        format!("verificar: MISSING\n.pinker/archive/s1.stable INTACT regioes=1 comprimento=6 {fnv}\n.pinker/archive/s2.stable MISSING regioes=1 comprimento=6 {fnv}\n  ausente: .pinker/archive/s2.stable: ausente\n")
    );
    let json = render_verification_json(&v);
    assert!(json.starts_with("{\"schema\":1,\"index\":\".pinker/archive/index.toml\",\"export_source_main\":\"abc\",\"export_source_tree\":\"def\",\"outcome\":\"MISSING\",\"entries\":[{\"id\":\"s1\""));
    assert!(json.ends_with("\"outcome\":\"MISSING\",\"missing\":\".pinker/archive/s2.stable\",\"detail\":\"ausente\"}]}"));
    let entry_human = render_entry_human(&index, &v.entries[0]);
    assert!(entry_human.starts_with("s1\npayload: .pinker/archive/s1.stable\nmetadado histórico: .pinker/projections/s1.toml\n"));
    assert!(entry_human.ends_with("integridade: INTACT\nproveniência: bytes exatos\n"));
    let entry_json = render_entry_json(&index, &v.entries[0]);
    assert!(entry_json.starts_with("{\"schema\":1,\"provenance\":\"bytes exatos\",\"entry\":{\"id\":\"s1\""));
    assert!(entry_json.ends_with("\"outcome\":\"INTACT\"}}"));
}

#[test]
fn coverage_is_one_to_one_with_the_preserved_states() {
    let listing = vec![
        MetadataListing::File("s2.toml".to_string()),
        MetadataListing::Directory,
        MetadataListing::File("s1.toml".to_string()),
    ];
    assert_eq!(preserved_states(&listing), Ok(vec!["s1".to_string(), "s2".to_string()]));
    assert_eq!(
        preserved_states(&vec![MetadataListing::File("s1.txt".to_string())]),
        Err(ArchiveFailure::ForeignMetadata { path: ".pinker/projections/s1.txt".to_string() })
    );
    assert_eq!(
        preserved_states(&vec![MetadataListing::File(".toml".to_string())]),
        Err(ArchiveFailure::ForeignMetadata { path: ".pinker/projections/.toml".to_string() })
    );
    let index = parse_index(&index_text()).expect("índice válido");
    assert_eq!(require_complete_coverage(&index, &vec!["s1".to_string(), "s2".to_string()]), Ok(()));
    assert_eq!(
        require_complete_coverage(&index, &vec!["s1".to_string(), "s2".to_string(), "s3".to_string()]),
        Err(ArchiveFailure::MissingArchivedState { id: "s3".to_string() })
    );
    assert_eq!(
        require_complete_coverage(&index, &vec!["s2".to_string()]),
        Err(ArchiveFailure::UnknownArchivedState { id: "s1".to_string() })
    );
    assert_eq!(load(&Ok(index_text()), &Ok(listing)), Ok(index));
    assert_eq!(
        load(&Err("negado".to_string()), &Ok(Vec::new())),
        Err(ArchiveFailure::Unreadable { path: INDEX_PATH.to_string(), msg: "negado".to_string() })
    );
}

#[test]
fn failures_render_their_code_and_message() {
    let f = ArchiveFailure::UnknownArchivedState { id: "s9".to_string() };
    assert_eq!(
        f.message(),
        "E-ARCHIVE-COVERAGE\na entrada 's9' não corresponde a nenhum estado histórico aceito em '.pinker/projections/'"
    );
    assert_eq!(
        render_failure_json("verificar", &ArchiveFailure::Empty),
        "{\"schema\":1,\"command\":\"verificar\",\"outcome\":\"ARCHIVE_FAILURE\",\"error\":\"E-ARCHIVE-SCHEMA\\no índice de arquivo precisa declarar ao menos uma entrada\"}"
    );
    assert_eq!(
        ArchiveFailure::Malformed { line: 3, msg: "x".to_string() }.message(),
        "E-ARCHIVE-TOML\nlinha 3: x"
    );
}
