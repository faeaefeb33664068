//! Materialized historical archive of the navigation map.
//!
//! Each accepted state lives as the exact bytes of its stable projection, and
//! historical verification is file integrity: the payload exists and keeps
//! its length, its FNV-1a64, its record count and the SHA-256 that the index
//! declares. Nothing here reads the current catalogue, its keys, summaries,
//! hashes or paths, the rename map or the reconstruction recipes.
use crate::nav::{fnv_canonical, fnv_fold};
use crate::nav_projection_report::{concat, joined, lemma_concat_push, lemma_joined_push};
use crate::nav_projection_snapshot::report::{json_quoted, push_json_string};
use crate::native_symbol::{digits_value, is_digit};
use crate::nav_projection_snapshot::parser::{is_hex_lower, str_listed, strs, unknown_key};
use crate::nav_projection_snapshot::toml::{
    first_index, has_key, parse_digits, scalar_view, table_get, table_view, unescape, Scalar, ScalarView, Table,
};
use crate::text::{
    chars_of, decimal, has_prefix, has_suffix, lines, push_all, push_decimal, push_str_chars, string_from,
    string_rows, trim,
};
use vstd::prelude::*;

pub use crate::nav_projection_snapshot::{fnv1a64, fnv1a64_canonical};

verus! {

/// Directory of the materialized archive, relative to the repository.
pub const ARCHIVE_DIR: &'static str = ".pinker/archive";

/// Provenance index of the archive, relative to the repository.
pub const INDEX_PATH: &'static str = ".pinker/archive/index.toml";

/// Authority of the preserved historical metadata, relative to the
/// repository: one FROZEN TOML per accepted state.
pub const METADATA_DIR: &'static str = ".pinker/projections";

/// Canonical suffix of a materialized payload.
pub const PAYLOAD_SUFFIX: &'static str = ".stable";

/// Canonical suffix of a preserved metadata file.
pub const METADATA_SUFFIX: &'static str = ".toml";

/// Version of the index format.
pub const ARCHIVE_SCHEMA: u64 = 1;

/// Length of a SHA-256 in lower-case hexadecimal.
pub const SHA256_LEN: usize = 64;

/// One entry of the index: an accepted historical state and its evidence.
#[derive(Debug, Clone, PartialEq, Eq)]
pub struct ArchiveEntry {
    pub id: String,
    /// Preserved original metadata, relative to the repository.
    pub metadata_path: String,
    /// SHA-256 of those metadata bytes when they were exported.
    pub metadata_sha256: String,
    /// Materialized payload, relative to the repository.
    pub payload_path: String,
    /// Preserved historical measure: records of the stable projection.
    pub regions: u64,
    /// Preserved historical measure: length in bytes.
    pub length: u64,
    /// Preserved historical measure, as `fnv1a64:<hex>`.
    pub fnv1a64: String,
    /// File integrity. In addition to the measures, never instead of them.
    pub sha256: String,
}

/// The whole index, with the provenance that makes it auditable.
#[derive(Debug, Clone, PartialEq, Eq)]
pub struct ArchiveIndex {
    pub schema: u64,
    pub export_source_main: String,
    pub export_source_tree: String,
    pub export_method: String,
    /// Explicit statement of what the bytes are and are not.
    pub provenance: String,
    pub entries: Vec<ArchiveEntry>,
}

pub struct EntryView {
    pub id: Seq<char>,
    pub metadata_path: Seq<char>,
    pub metadata_sha256: Seq<char>,
    pub payload_path: Seq<char>,
    pub regions: u64,
    pub length: u64,
    pub fnv1a64: Seq<char>,
    pub sha256: Seq<char>,
}

pub open spec fn entry_view(e: ArchiveEntry) -> EntryView {
    EntryView {
        id: e.id@,
        metadata_path: e.metadata_path@,
        metadata_sha256: e.metadata_sha256@,
        payload_path: e.payload_path@,
        regions: e.regions,
        length: e.length,
        fnv1a64: e.fnv1a64@,
        sha256: e.sha256@,
    }
}

pub open spec fn entries_view(es: Seq<ArchiveEntry>) -> Seq<EntryView> {
    es.map_values(|e: ArchiveEntry| entry_view(e))
}

pub struct IndexView {
    pub schema: u64,
    pub export_source_main: Seq<char>,
    pub export_source_tree: Seq<char>,
    pub export_method: Seq<char>,
    pub provenance: Seq<char>,
    pub entries: Seq<EntryView>,
}

pub open spec fn index_view(i: ArchiveIndex) -> IndexView {
    IndexView {
        schema: i.schema,
        export_source_main: i.export_source_main@,
        export_source_tree: i.export_source_tree@,
        export_method: i.export_method@,
        provenance: i.provenance@,
        entries: entries_view(i.entries@),
    }
}

/// Failures of the archive authority. None of them is a drift of the
/// current catalogue.
#[derive(Debug, Clone, PartialEq, Eq)]
pub enum ArchiveFailure {
    Unreadable { path: String, msg: String },
    Malformed { line: usize, msg: String },
    UnknownField { scope: String, field: String },
    MissingField { scope: String, field: String },
    UnsupportedSchema { schema: u64 },
    Empty,
    DuplicateId { id: String },
    DuplicatePath { path: String },
    InvalidValue { scope: String, field: String, msg: String },
    /// A path of the index that is not the canonical path of its entry.
    UnconfinedPath { scope: String, field: String, path: String, msg: String },
    /// An accepted historical state that the index does not archive.
    MissingArchivedState { id: String },
    /// An entry of the index that names no accepted historical state.
    UnknownArchivedState { id: String },
    /// A file in the metadata authority that is not a preserved state.
    ForeignMetadata { path: String },
}

pub enum ArchiveFailureView {
    Unreadable { path: Seq<char>, msg: Seq<char> },
    Malformed { line: nat, msg: Seq<char> },
    UnknownField { scope: Seq<char>, field: Seq<char> },
    MissingField { scope: Seq<char>, field: Seq<char> },
    UnsupportedSchema { schema: u64 },
    Empty,
    DuplicateId { id: Seq<char> },
    DuplicatePath { path: Seq<char> },
    InvalidValue { scope: Seq<char>, field: Seq<char>, msg: Seq<char> },
    UnconfinedPath { scope: Seq<char>, field: Seq<char>, path: Seq<char>, msg: Seq<char> },
    MissingArchivedState { id: Seq<char> },
    UnknownArchivedState { id: Seq<char> },
    ForeignMetadata { path: Seq<char> },
}

pub open spec fn archive_failure_view(f: ArchiveFailure) -> ArchiveFailureView {
    match f {
        ArchiveFailure::Unreadable { path, msg } => ArchiveFailureView::Unreadable { path: path@, msg: msg@ },
        ArchiveFailure::Malformed { line, msg } => ArchiveFailureView::Malformed { line: line as nat, msg: msg@ },
        ArchiveFailure::UnknownField { scope, field } => ArchiveFailureView::UnknownField {
            scope: scope@,
            field: field@,
        },
        ArchiveFailure::MissingField { scope, field } => ArchiveFailureView::MissingField {
            scope: scope@,
            field: field@,
        },
        ArchiveFailure::UnsupportedSchema { schema } => ArchiveFailureView::UnsupportedSchema { schema },
        ArchiveFailure::Empty => ArchiveFailureView::Empty,
        ArchiveFailure::DuplicateId { id } => ArchiveFailureView::DuplicateId { id: id@ },
        ArchiveFailure::DuplicatePath { path } => ArchiveFailureView::DuplicatePath { path: path@ },
        ArchiveFailure::InvalidValue { scope, field, msg } => ArchiveFailureView::InvalidValue {
            scope: scope@,
            field: field@,
            msg: msg@,
        },
        ArchiveFailure::UnconfinedPath { scope, field, path, msg } => ArchiveFailureView::UnconfinedPath {
            scope: scope@,
            field: field@,
            path: path@,
            msg: msg@,
        },
        ArchiveFailure::MissingArchivedState { id } => ArchiveFailureView::MissingArchivedState { id: id@ },
        ArchiveFailure::UnknownArchivedState { id } => ArchiveFailureView::UnknownArchivedState { id: id@ },
        ArchiveFailure::ForeignMetadata { path } => ArchiveFailureView::ForeignMetadata { path: path@ },
    }
}

/// The diagnostic text of a failure: its code on the first line, then what
/// went wrong.
pub open spec fn archive_failure_text(f: ArchiveFailureView) -> Seq<char> {
    match f {
        ArchiveFailureView::Unreadable { path, msg } => "E-ARCHIVE-IO\níndice de arquivo ilegível em '"@ + path
            + "': "@ + msg,
        ArchiveFailureView::Malformed { line, msg } => "E-ARCHIVE-TOML\nlinha "@ + decimal(line) + ": "@ + msg,
        ArchiveFailureView::UnknownField { scope, field } => "E-ARCHIVE-SCHEMA\ncampo desconhecido '"@ + scope
            + field + "' no índice de arquivo"@,
        ArchiveFailureView::MissingField { scope, field } => "E-ARCHIVE-SCHEMA\ncampo obrigatório '"@ + scope
            + field + "' ausente no índice de arquivo"@,
        ArchiveFailureView::UnsupportedSchema { schema } => "E-ARCHIVE-SCHEMA\nschema "@ + decimal(
            schema as nat,
        ) + " desconhecido para índice de arquivo; este formato aceita "@ + decimal(ARCHIVE_SCHEMA as nat),
        ArchiveFailureView::Empty => "E-ARCHIVE-SCHEMA\no índice de arquivo precisa declarar ao menos uma entrada"@,
        ArchiveFailureView::DuplicateId { id } => "E-ARCHIVE-IDENTITY\nid '"@ + id
            + "' declarado em duas entradas do índice"@,
        ArchiveFailureView::DuplicatePath { path } => "E-ARCHIVE-IDENTITY\npath '"@ + path
            + "' declarado em duas entradas do índice"@,
        ArchiveFailureView::InvalidValue { scope, field, msg } => "E-ARCHIVE-SCHEMA\nvalor inválido em '"@ + scope
            + field + "': "@ + msg,
        ArchiveFailureView::UnconfinedPath { scope, field, path, msg } => "E-ARCHIVE-PATH\n'"@ + scope + field
            + "' declara '"@ + path + "' fora da autoridade do arquivo: "@ + msg,
        ArchiveFailureView::MissingArchivedState { id } => "E-ARCHIVE-COVERAGE\no estado histórico aceito '"@ + id
            + "' não tem entrada no índice de arquivo"@,
        ArchiveFailureView::UnknownArchivedState { id } => "E-ARCHIVE-COVERAGE\na entrada '"@ + id
            + "' não corresponde a nenhum estado histórico aceito em '"@ + METADATA_DIR@ + "/'"@,
        ArchiveFailureView::ForeignMetadata { path } => "E-ARCHIVE-COVERAGE\n'"@ + path
            + "' não é um metadado histórico preservado"@,
    }
}

impl ArchiveFailure {
    /// The diagnostic text of the failure.
    pub fn message(&self) -> (s: String)
        ensures
            s@ == archive_failure_text(archive_failure_view(*self)),
    {
        let mut v: Vec<char> = Vec::new();
        match self {
            ArchiveFailure::Unreadable { path, msg } => {
                push_str_chars(&mut v, "E-ARCHIVE-IO\níndice de arquivo ilegível em '");
                push_str_chars(&mut v, path.as_str());
                push_str_chars(&mut v, "': ");
                push_str_chars(&mut v, msg.as_str());
            },
            ArchiveFailure::Malformed { line, msg } => {
                push_str_chars(&mut v, "E-ARCHIVE-TOML\nlinha ");
                push_decimal(&mut v, *line as u64);
                push_str_chars(&mut v, ": ");
                push_str_chars(&mut v, msg.as_str());
            },
            ArchiveFailure::UnknownField { scope, field } => {
                push_str_chars(&mut v, "E-ARCHIVE-SCHEMA\ncampo desconhecido '");
                push_str_chars(&mut v, scope.as_str());
                push_str_chars(&mut v, field.as_str());
                push_str_chars(&mut v, "' no índice de arquivo");
            },
            ArchiveFailure::MissingField { scope, field } => {
                push_str_chars(&mut v, "E-ARCHIVE-SCHEMA\ncampo obrigatório '");
                push_str_chars(&mut v, scope.as_str());
                push_str_chars(&mut v, field.as_str());
                push_str_chars(&mut v, "' ausente no índice de arquivo");
            },
            ArchiveFailure::UnsupportedSchema { schema } => {
                push_str_chars(&mut v, "E-ARCHIVE-SCHEMA\nschema ");
                push_decimal(&mut v, *schema);
                push_str_chars(&mut v, " desconhecido para índice de arquivo; este formato aceita ");
                push_decimal(&mut v, ARCHIVE_SCHEMA);
            },
            ArchiveFailure::Empty => {
                push_str_chars(&mut v, "E-ARCHIVE-SCHEMA\no índice de arquivo precisa declarar ao menos uma entrada");
            },
            ArchiveFailure::DuplicateId { id } => {
                push_str_chars(&mut v, "E-ARCHIVE-IDENTITY\nid '");
                push_str_chars(&mut v, id.as_str());
                push_str_chars(&mut v, "' declarado em duas entradas do índice");
            },
            ArchiveFailure::DuplicatePath { path } => {
                push_str_chars(&mut v, "E-ARCHIVE-IDENTITY\npath '");
                push_str_chars(&mut v, path.as_str());
                push_str_chars(&mut v, "' declarado em duas entradas do índice");
            },
            ArchiveFailure::InvalidValue { scope, field, msg } => {
                push_str_chars(&mut v, "E-ARCHIVE-SCHEMA\nvalor inválido em '");
                push_str_chars(&mut v, scope.as_str());
                push_str_chars(&mut v, field.as_str());
                push_str_chars(&mut v, "': ");
                push_str_chars(&mut v, msg.as_str());
            },
            ArchiveFailure::UnconfinedPath { scope, field, path, msg } => {
                push_str_chars(&mut v, "E-ARCHIVE-PATH\n'");
                push_str_chars(&mut v, scope.as_str());
                push_str_chars(&mut v, field.as_str());
                push_str_chars(&mut v, "' declara '");
                push_str_chars(&mut v, path.as_str());
                push_str_chars(&mut v, "' fora da autoridade do arquivo: ");
                push_str_chars(&mut v, msg.as_str());
            },
            ArchiveFailure::MissingArchivedState { id } => {
                push_str_chars(&mut v, "E-ARCHIVE-COVERAGE\no estado histórico aceito '");
                push_str_chars(&mut v, id.as_str());
                push_str_chars(&mut v, "' não tem entrada no índice de arquivo");
            },
            ArchiveFailure::UnknownArchivedState { id } => {
                push_str_chars(&mut v, "E-ARCHIVE-COVERAGE\na entrada '");
                push_str_chars(&mut v, id.as_str());
                push_str_chars(&mut v, "' não corresponde a nenhum estado histórico aceito em '");
                push_str_chars(&mut v, METADATA_DIR);
                push_str_chars(&mut v, "/'");
            },
            ArchiveFailure::ForeignMetadata { path } => {
                push_str_chars(&mut v, "E-ARCHIVE-COVERAGE\n'");
                push_str_chars(&mut v, path.as_str());
                push_str_chars(&mut v, "' não é um metadado histórico preservado");
            },
        }
        assert(v@ =~= archive_failure_text(archive_failure_view(*self)));
        string_from(&v)
    }
}

/// One measure that differs between the preserved state and what was read.
#[derive(Debug, Clone, PartialEq, Eq)]
pub struct Divergence {
    pub measure: &'static str,
    pub expected: String,
    pub observed: String,
}

pub struct DivergenceView {
    pub measure: Seq<char>,
    pub expected: Seq<char>,
    pub observed: Seq<char>,
}

pub open spec fn divergence_view(d: Divergence) -> DivergenceView {
    DivergenceView { measure: d.measure@, expected: d.expected@, observed: d.observed@ }
}

pub open spec fn divergences_view(ds: Seq<Divergence>) -> Seq<DivergenceView> {
    ds.map_values(|d: Divergence| divergence_view(d))
}

/// The typed result of one verified entry.
#[derive(Debug, Clone, PartialEq, Eq)]
pub enum EntryOutcome {
    Intact,
    Missing { path: String, msg: String },
    Altered(Vec<Divergence>),
}

pub open spec fn entry_outcome_name(o: EntryOutcome) -> Seq<char> {
    match o {
        EntryOutcome::Intact => "INTACT"@,
        EntryOutcome::Missing { .. } => "MISSING"@,
        EntryOutcome::Altered(_) => "ALTERED"@,
    }
}

impl EntryOutcome {
    pub fn as_str(&self) -> (s: &'static str)
        ensures
            s@ == entry_outcome_name(*self),
    {
        match self {
            EntryOutcome::Intact => "INTACT",
            EntryOutcome::Missing { .. } => "MISSING",
            EntryOutcome::Altered(_) => "ALTERED",
        }
    }
}

/// The report of one entry of the archive.
#[derive(Debug, Clone, PartialEq, Eq)]
pub struct EntryReport {
    pub id: String,
    pub payload_path: String,
    pub metadata_path: String,
    pub regions: u64,
    pub length: u64,
    pub fnv1a64: String,
    pub sha256: String,
    pub outcome: EntryOutcome,
}

/// The report of the whole archive.
#[derive(Debug, Clone, PartialEq, Eq)]
pub struct ArchiveVerification {
    pub index_path: String,
    pub export_source_main: String,
    pub export_source_tree: String,
    pub entries: Vec<EntryReport>,
}

pub open spec fn is_missing(r: EntryReport) -> bool {
    r.outcome is Missing
}

pub open spec fn is_altered(r: EntryReport) -> bool {
    r.outcome is Altered
}

/// `MISSING` when an entry is missing, else `ALTERED` when one is altered,
/// else `INTACT`.
pub open spec fn archive_outcome(v: ArchiveVerification) -> Seq<char> {
    if exists|k: int| 0 <= k < v.entries@.len() && is_missing(#[trigger] v.entries@[k]) {
        "MISSING"@
    } else if exists|k: int| 0 <= k < v.entries@.len() && is_altered(#[trigger] v.entries@[k]) {
        "ALTERED"@
    } else {
        "INTACT"@
    }
}

impl ArchiveVerification {
    /// `INTACT` only when every entry is intact.
    pub fn outcome(&self) -> (s: &'static str)
        ensures
            s@ == archive_outcome(*self),
    {
        let mut missing = false;
        let mut altered = false;
        let mut k: usize = 0;
        while k < self.entries.len()
            invariant
                k <= self.entries@.len(),
                missing == exists|j: int| 0 <= j < k && is_missing(#[trigger] self.entries@[j]),
                altered == exists|j: int| 0 <= j < k && is_altered(#[trigger] self.entries@[j]),
            decreases self.entries.len() - k,
        {
            match &self.entries[k].outcome {
                EntryOutcome::Missing { .. } => {
                    missing = true;
                },
                EntryOutcome::Altered(_) => {
                    altered = true;
                },
                EntryOutcome::Intact => {},
            }
            proof {
                assert(is_missing(self.entries@[k as int]) ==> exists|j: int|
                    0 <= j < k + 1 && is_missing(#[trigger] self.entries@[j]));
                assert(is_altered(self.entries@[k as int]) ==> exists|j: int|
                    0 <= j < k + 1 && is_altered(#[trigger] self.entries@[j]));
            }
            k = k + 1;
        }
        if missing {
            "MISSING"
        } else if altered {
            "ALTERED"
        } else {
            "INTACT"
        }
    }
}


// ---------------------------------------------------------------------------
// Deterministic renderings: fixed key order, explicit escapes, paths
// relative to the repository only.
// ---------------------------------------------------------------------------

pub open spec fn divergence_json(d: DivergenceView) -> Seq<char> {
    "{\"measure\":"@ + json_quoted(d.measure) + ",\"expected\":"@ + json_quoted(d.expected) + ",\"observed\":"@
        + json_quoted(d.observed) + "}"@
}

pub open spec fn outcome_json(o: EntryOutcome) -> Seq<char> {
    match o {
        EntryOutcome::Intact => Seq::empty(),
        EntryOutcome::Missing { path, msg } => ",\"missing\":"@ + json_quoted(path@) + ",\"detail\":"@
            + json_quoted(msg@),
        EntryOutcome::Altered(ds) => ",\"divergences\":["@ + joined(
            divergences_view(ds@).map_values(|d: DivergenceView| divergence_json(d)),
        ) + "]"@,
    }
}

/// One entry report as a JSON object.
pub open spec fn entry_json(r: EntryReport) -> Seq<char> {
    "{\"id\":"@ + json_quoted(r.id@) + ",\"payload\":"@ + json_quoted(r.payload_path@) + ",\"metadata\":"@
        + json_quoted(r.metadata_path@) + ",\"regions\":"@ + decimal(r.regions as nat) + ",\"length\":"@
        + decimal(r.length as nat) + ",\"fnv1a64\":"@ + json_quoted(r.fnv1a64@) + ",\"sha256\":"@ + json_quoted(
        r.sha256@,
    ) + ",\"outcome\":"@ + json_quoted(entry_outcome_name(r.outcome)) + outcome_json(r.outcome) + "}"@
}

fn push_divergences_json(out: &mut Vec<char>, ds: &Vec<Divergence>)
    ensures
        final(out)@ == old(out)@ + joined(divergences_view(ds@).map_values(|d: DivergenceView| divergence_json(d))),
{
    let ghost parts = divergences_view(ds@).map_values(|d: DivergenceView| divergence_json(d));
    let mut v: Vec<char> = Vec::new();
    let mut i: usize = 0;
    assert(parts.take(0) =~= Seq::<Seq<char>>::empty());
    assert(v@ =~= joined(Seq::empty()));
    while i < ds.len()
        invariant
            i <= ds@.len(),
            parts == divergences_view(ds@).map_values(|d: DivergenceView| divergence_json(d)),
            v@ == joined(parts.take(i as int)),
        decreases ds.len() - i,
    {
        proof {
            lemma_joined_push(parts.take(i as int), parts[i as int]);
            assert(parts.take(i + 1) =~= parts.take(i as int).push(parts[i as int]));
        }
        if i > 0 {
            push_str_chars(&mut v, ",");
        }
        let ghost sep = v@;
        let mut d: Vec<char> = Vec::new();
        push_str_chars(&mut d, "{\"measure\":");
        assert(d@ =~= "{\"measure\":"@);
        push_json_string(&mut d, ds[i].measure);
        push_str_chars(&mut d, ",\"expected\":");
        push_json_string(&mut d, ds[i].expected.as_str());
        push_str_chars(&mut d, ",\"observed\":");
        push_json_string(&mut d, ds[i].observed.as_str());
        push_str_chars(&mut d, "}");
        assert(d@ == parts[i as int]);
        push_all(&mut v, &d);
        i = i + 1;
    }
    assert(parts.take(i as int) =~= parts);
    push_all(out, &v);
}

fn push_outcome_json(out: &mut Vec<char>, o: &EntryOutcome)
    ensures
        final(out)@ == old(out)@ + outcome_json(*o),
{
    match o {
        EntryOutcome::Intact => {
            assert(final(out)@ =~= old(out)@ + outcome_json(*o));
        },
        EntryOutcome::Missing { path, msg } => {
            let mut v: Vec<char> = Vec::new();
            push_str_chars(&mut v, ",\"missing\":");
            assert(v@ =~= ",\"missing\":"@);
            push_json_string(&mut v, path.as_str());
            push_str_chars(&mut v, ",\"detail\":");
            push_json_string(&mut v, msg.as_str());
            push_all(out, &v);
        },
        EntryOutcome::Altered(ds) => {
            let mut v: Vec<char> = Vec::new();
            push_str_chars(&mut v, ",\"divergences\":[");
            assert(v@ =~= ",\"divergences\":["@);
            push_divergences_json(&mut v, ds);
            push_str_chars(&mut v, "]");
            push_all(out, &v);
        },
    }
}

fn push_entry_json(out: &mut Vec<char>, r: &EntryReport)
    ensures
        final(out)@ == old(out)@ + entry_json(*r),
{
    let mut v: Vec<char> = Vec::new();
    push_str_chars(&mut v, "{\"id\":");
    assert(v@ =~= "{\"id\":"@);
    push_json_string(&mut v, r.id.as_str());
    push_str_chars(&mut v, ",\"payload\":");
    push_json_string(&mut v, r.payload_path.as_str());
    push_str_chars(&mut v, ",\"metadata\":");
    push_json_string(&mut v, r.metadata_path.as_str());
    push_str_chars(&mut v, ",\"regions\":");
    push_decimal(&mut v, r.regions);
    push_str_chars(&mut v, ",\"length\":");
    push_decimal(&mut v, r.length);
    push_str_chars(&mut v, ",\"fnv1a64\":");
    push_json_string(&mut v, r.fnv1a64.as_str());
    push_str_chars(&mut v, ",\"sha256\":");
    push_json_string(&mut v, r.sha256.as_str());
    push_str_chars(&mut v, ",\"outcome\":");
    push_json_string(&mut v, r.outcome.as_str());
    push_outcome_json(&mut v, &r.outcome);
    push_str_chars(&mut v, "}");
    assert(v@ == entry_json(*r));
    push_all(out, &v);
}

pub open spec fn inventory_line(e: EntryView) -> Seq<char> {
    e.id + " regioes="@ + decimal(e.regions as nat) + " comprimento="@ + decimal(e.length as nat) + " "@
        + e.fnv1a64 + "\n"@
}

/// The human inventory: provenance, then one line per entry.
pub open spec fn inventory_human(i: IndexView) -> Seq<char> {
    "arquivo histórico materializado\n"@ + "origem: "@ + i.export_source_main + "\n"@ + "árvore: "@
        + i.export_source_tree + "\n"@ + concat(i.entries.map_values(|e: EntryView| inventory_line(e)))
}

/// Human inventory of the archive.
pub fn render_inventory_human(index: &ArchiveIndex) -> (s: String)
    ensures
        s@ == inventory_human(index_view(*index)),
{
    let ghost parts = entries_view(index.entries@).map_values(|e: EntryView| inventory_line(e));
    let mut lines: Vec<char> = Vec::new();
    let mut i: usize = 0;
    assert(parts.take(0) =~= Seq::<Seq<char>>::empty());
    assert(lines@ =~= concat(Seq::empty()));
    while i < index.entries.len()
        invariant
            i <= index.entries@.len(),
            parts == entries_view(index.entries@).map_values(|e: EntryView| inventory_line(e)),
            lines@ == concat(parts.take(i as int)),
        decreases index.entries.len() - i,
    {
        proof {
            lemma_concat_push(parts.take(i as int), parts[i as int]);
            assert(parts.take(i + 1) =~= parts.take(i as int).push(parts[i as int]));
        }
        let e = &index.entries[i];
        let mut l: Vec<char> = Vec::new();
        push_str_chars(&mut l, e.id.as_str());
        assert(l@ =~= e.id@);
        push_str_chars(&mut l, " regioes=");
        push_decimal(&mut l, e.regions);
        push_str_chars(&mut l, " comprimento=");
        push_decimal(&mut l, e.length);
        push_str_chars(&mut l, " ");
        push_str_chars(&mut l, e.fnv1a64.as_str());
        push_str_chars(&mut l, "\n");
        assert(l@ == parts[i as int]);
        push_all(&mut lines, &l);
        i = i + 1;
    }
    assert(parts.take(i as int) =~= parts);
    let mut out: Vec<char> = Vec::new();
    push_str_chars(&mut out, "arquivo histórico materializado\n");
    assert(out@ =~= "arquivo histórico materializado\n"@);
    push_str_chars(&mut out, "origem: ");
    push_str_chars(&mut out, index.export_source_main.as_str());
    push_str_chars(&mut out, "\n");
    push_str_chars(&mut out, "árvore: ");
    push_str_chars(&mut out, index.export_source_tree.as_str());
    push_str_chars(&mut out, "\n");
    push_all(&mut out, &lines);
    assert(out@ == inventory_human(index_view(*index)));
    string_from(&out)
}

pub open spec fn inventory_entry_json(e: EntryView) -> Seq<char> {
    "{\"id\":"@ + json_quoted(e.id) + ",\"payload\":"@ + json_quoted(e.payload_path) + ",\"metadata\":"@
        + json_quoted(e.metadata_path) + ",\"regions\":"@ + decimal(e.regions as nat) + ",\"length\":"@
        + decimal(e.length as nat) + ",\"fnv1a64\":"@ + json_quoted(e.fnv1a64) + ",\"sha256\":"@ + json_quoted(
        e.sha256,
    ) + "}"@
}

pub open spec fn inventory_json(i: IndexView) -> Seq<char> {
    "{\"schema\":"@ + decimal(i.schema as nat) + ",\"export_source_main\":"@ + json_quoted(i.export_source_main)
        + ",\"export_source_tree\":"@ + json_quoted(i.export_source_tree) + ",\"export_method\":"@ + json_quoted(
        i.export_method,
    ) + ",\"provenance\":"@ + json_quoted(i.provenance) + ",\"entries\":["@ + joined(
        i.entries.map_values(|e: EntryView| inventory_entry_json(e)),
    ) + "]}"@
}

/// Deterministic JSON inventory of the archive.
pub fn render_inventory_json(index: &ArchiveIndex) -> (s: String)
    ensures
        s@ == inventory_json(index_view(*index)),
{
    let ghost parts = entries_view(index.entries@).map_values(|e: EntryView| inventory_entry_json(e));
    let mut items: Vec<char> = Vec::new();
    let mut i: usize = 0;
    assert(parts.take(0) =~= Seq::<Seq<char>>::empty());
    assert(items@ =~= joined(Seq::empty()));
    while i < index.entries.len()
        invariant
            i <= index.entries@.len(),
            parts == entries_view(index.entries@).map_values(|e: EntryView| inventory_entry_json(e)),
            items@ == joined(parts.take(i as int)),
        decreases index.entries.len() - i,
    {
        proof {
            lemma_joined_push(parts.take(i as int), parts[i as int]);
            assert(parts.take(i + 1) =~= parts.take(i as int).push(parts[i as int]));
        }
        if i > 0 {
            push_str_chars(&mut items, ",");
        }
        let e = &index.entries[i];
        let mut l: Vec<char> = Vec::new();
        push_str_chars(&mut l, "{\"id\":");
        assert(l@ =~= "{\"id\":"@);
        push_json_string(&mut l, e.id.as_str());
        push_str_chars(&mut l, ",\"payload\":");
        push_json_string(&mut l, e.payload_path.as_str());
        push_str_chars(&mut l, ",\"metadata\":");
        push_json_string(&mut l, e.metadata_path.as_str());
        push_str_chars(&mut l, ",\"regions\":");
        push_decimal(&mut l, e.regions);
        push_str_chars(&mut l, ",\"length\":");
        push_decimal(&mut l, e.length);
        push_str_chars(&mut l, ",\"fnv1a64\":");
        push_json_string(&mut l, e.fnv1a64.as_str());
        push_str_chars(&mut l, ",\"sha256\":");
        push_json_string(&mut l, e.sha256.as_str());
        push_str_chars(&mut l, "}");
        assert(l@ == parts[i as int]);
        push_all(&mut items, &l);
        i = i + 1;
    }
    assert(parts.take(i as int) =~= parts);
    let mut out: Vec<char> = Vec::new();
    push_str_chars(&mut out, "{\"schema\":");
    assert(out@ =~= "{\"schema\":"@);
    push_decimal(&mut out, index.schema);
    push_str_chars(&mut out, ",\"export_source_main\":");
    push_json_string(&mut out, index.export_source_main.as_str());
    push_str_chars(&mut out, ",\"export_source_tree\":");
    push_json_string(&mut out, index.export_source_tree.as_str());
    push_str_chars(&mut out, ",\"export_method\":");
    push_json_string(&mut out, index.export_method.as_str());
    push_str_chars(&mut out, ",\"provenance\":");
    push_json_string(&mut out, index.provenance.as_str());
    push_str_chars(&mut out, ",\"entries\":[");
    push_all(&mut out, &items);
    push_str_chars(&mut out, "]}");
    assert(out@ == inventory_json(index_view(*index)));
    string_from(&out)
}

/// One entry for humans: its paths, its preserved measures, its integrity
/// and the provenance of the archive.
pub open spec fn entry_human(i: IndexView, r: EntryReport) -> Seq<char> {
    r.id@ + "\n"@ + "payload: "@ + r.payload_path@ + "\n"@ + "metadado histórico: "@ + r.metadata_path@ + "\n"@
        + "medidas preservadas: regioes="@ + decimal(r.regions as nat) + " comprimento="@ + decimal(
        r.length as nat,
    ) + " "@ + r.fnv1a64@ + "\n"@ + "sha256: "@ + r.sha256@ + "\n"@ + "integridade: "@ + entry_outcome_name(
        r.outcome,
    ) + "\n"@ + "proveniência: "@ + i.provenance + "\n"@
}

pub fn render_entry_human(index: &ArchiveIndex, report: &EntryReport) -> (s: String)
    ensures
        s@ == entry_human(index_view(*index), *report),
{
    let mut out: Vec<char> = Vec::new();
    push_str_chars(&mut out, report.id.as_str());
    assert(out@ =~= report.id@);
    push_str_chars(&mut out, "\n");
    push_str_chars(&mut out, "payload: ");
    push_str_chars(&mut out, report.payload_path.as_str());
    push_str_chars(&mut out, "\n");
    push_str_chars(&mut out, "metadado histórico: ");
    push_str_chars(&mut out, report.metadata_path.as_str());
    push_str_chars(&mut out, "\n");
    push_str_chars(&mut out, "medidas preservadas: regioes=");
    push_decimal(&mut out, report.regions);
    push_str_chars(&mut out, " comprimento=");
    push_decimal(&mut out, report.length);
    push_str_chars(&mut out, " ");
    push_str_chars(&mut out, report.fnv1a64.as_str());
    push_str_chars(&mut out, "\n");
    push_str_chars(&mut out, "sha256: ");
    push_str_chars(&mut out, report.sha256.as_str());
    push_str_chars(&mut out, "\n");
    push_str_chars(&mut out, "integridade: ");
    push_str_chars(&mut out, report.outcome.as_str());
    push_str_chars(&mut out, "\n");
    push_str_chars(&mut out, "proveniência: ");
    push_str_chars(&mut out, index.provenance.as_str());
    push_str_chars(&mut out, "\n");
    assert(out@ == entry_human(index_view(*index), *report));
    string_from(&out)
}

pub open spec fn entry_report_json(i: IndexView, r: EntryReport) -> Seq<char> {
    "{\"schema\":"@ + decimal(i.schema as nat) + ",\"provenance\":"@ + json_quoted(i.provenance) + ",\"entry\":"@
        + entry_json(r) + "}"@
}

pub fn render_entry_json(index: &ArchiveIndex, report: &EntryReport) -> (s: String)
    ensures
        s@ == entry_report_json(index_view(*index), *report),
{
    let mut out: Vec<char> = Vec::new();
    push_str_chars(&mut out, "{\"schema\":");
    assert(out@ =~= "{\"schema\":"@);
    push_decimal(&mut out, index.schema);
    push_str_chars(&mut out, ",\"provenance\":");
    push_json_string(&mut out, index.provenance.as_str());
    push_str_chars(&mut out, ",\"entry\":");
    push_entry_json(&mut out, report);
    push_str_chars(&mut out, "}");
    assert(out@ == entry_report_json(index_view(*index), *report));
    string_from(&out)
}

pub open spec fn divergence_line(d: DivergenceView) -> Seq<char> {
    "  "@ + d.measure + ": esperado "@ + d.expected + " observado "@ + d.observed + "\n"@
}

pub open spec fn outcome_lines(o: EntryOutcome) -> Seq<char> {
    match o {
        EntryOutcome::Intact => Seq::empty(),
        EntryOutcome::Missing { path, msg } => "  ausente: "@ + path@ + ": "@ + msg@ + "\n"@,
        EntryOutcome::Altered(ds) => concat(divergences_view(ds@).map_values(|d: DivergenceView| divergence_line(d))),
    }
}

pub open spec fn verification_line(r: EntryReport) -> Seq<char> {
    r.payload_path@ + " "@ + entry_outcome_name(r.outcome) + " regioes="@ + decimal(r.regions as nat)
        + " comprimento="@ + decimal(r.length as nat) + " "@ + r.fnv1a64@ + "\n"@ + outcome_lines(r.outcome)
}

/// The human verification: its outcome, then each entry with what is
/// missing or every divergence.
pub open spec fn verification_human(v: ArchiveVerification) -> Seq<char> {
    "verificar: "@ + archive_outcome(v) + "\n"@ + concat(v.entries@.map_values(|r: EntryReport| verification_line(r)))
}

fn push_outcome_lines(out: &mut Vec<char>, o: &EntryOutcome)
    ensures
        final(out)@ == old(out)@ + outcome_lines(*o),
{
    match o {
        EntryOutcome::Intact => {
            assert(final(out)@ =~= old(out)@ + outcome_lines(*o));
        },
        EntryOutcome::Missing { path, msg } => {
            let mut v: Vec<char> = Vec::new();
            push_str_chars(&mut v, "  ausente: ");
            assert(v@ =~= "  ausente: "@);
            push_str_chars(&mut v, path.as_str());
            push_str_chars(&mut v, ": ");
            push_str_chars(&mut v, msg.as_str());
            push_str_chars(&mut v, "\n");
            push_all(out, &v);
        },
        EntryOutcome::Altered(ds) => {
            let ghost parts = divergences_view(ds@).map_values(|d: DivergenceView| divergence_line(d));
            let mut v: Vec<char> = Vec::new();
            let mut i: usize = 0;
            assert(parts.take(0) =~= Seq::<Seq<char>>::empty());
            assert(v@ =~= concat(Seq::empty()));
            while i < ds.len()
                invariant
                    i <= ds@.len(),
                    parts == divergences_view(ds@).map_values(|d: DivergenceView| divergence_line(d)),
                    v@ == concat(parts.take(i as int)),
                decreases ds.len() - i,
            {
                proof {
                    lemma_concat_push(parts.take(i as int), parts[i as int]);
                    assert(parts.take(i + 1) =~= parts.take(i as int).push(parts[i as int]));
                }
                let mut l: Vec<char> = Vec::new();
                push_str_chars(&mut l, "  ");
                assert(l@ =~= "  "@);
                push_str_chars(&mut l, ds[i].measure);
                push_str_chars(&mut l, ": esperado ");
                push_str_chars(&mut l, ds[i].expected.as_str());
                push_str_chars(&mut l, " observado ");
                push_str_chars(&mut l, ds[i].observed.as_str());
                push_str_chars(&mut l, "\n");
                assert(l@ == parts[i as int]);
                push_all(&mut v, &l);
                i = i + 1;
            }
            assert(parts.take(i as int) =~= parts);
            push_all(out, &v);
        },
    }
}

/// Full verification, for humans.
pub fn render_verification_human(verification: &ArchiveVerification) -> (s: String)
    ensures
        s@ == verification_human(*verification),
{
    let ghost parts = verification.entries@.map_values(|r: EntryReport| verification_line(r));
    let mut lines: Vec<char> = Vec::new();
    let mut i: usize = 0;
    assert(parts.take(0) =~= Seq::<Seq<char>>::empty());
    assert(lines@ =~= concat(Seq::empty()));
    while i < verification.entries.len()
        invariant
            i <= verification.entries@.len(),
            parts == verification.entries@.map_values(|r: EntryReport| verification_line(r)),
            lines@ == concat(parts.take(i as int)),
        decreases verification.entries.len() - i,
    {
        proof {
            lemma_concat_push(parts.take(i as int), parts[i as int]);
            assert(parts.take(i + 1) =~= parts.take(i as int).push(parts[i as int]));
        }
        let r = &verification.entries[i];
        let mut l: Vec<char> = Vec::new();
        push_str_chars(&mut l, r.payload_path.as_str());
        assert(l@ =~= r.payload_path@);
        push_str_chars(&mut l, " ");
        push_str_chars(&mut l, r.outcome.as_str());
        push_str_chars(&mut l, " regioes=");
        push_decimal(&mut l, r.regions);
        push_str_chars(&mut l, " comprimento=");
        push_decimal(&mut l, r.length);
        push_str_chars(&mut l, " ");
        push_str_chars(&mut l, r.fnv1a64.as_str());
        push_str_chars(&mut l, "\n");
        push_outcome_lines(&mut l, &r.outcome);
        assert(l@ == parts[i as int]);
        push_all(&mut lines, &l);
        i = i + 1;
    }
    assert(parts.take(i as int) =~= parts);
    let mut out: Vec<char> = Vec::new();
    push_str_chars(&mut out, "verificar: ");
    assert(out@ =~= "verificar: "@);
    push_str_chars(&mut out, verification.outcome());
    push_str_chars(&mut out, "\n");
    push_all(&mut out, &lines);
    assert(out@ == verification_human(*verification));
    string_from(&out)
}

pub open spec fn verification_json(v: ArchiveVerification) -> Seq<char> {
    "{\"schema\":"@ + decimal(ARCHIVE_SCHEMA as nat) + ",\"index\":"@ + json_quoted(v.index_path@)
        + ",\"export_source_main\":"@ + json_quoted(v.export_source_main@) + ",\"export_source_tree\":"@
        + json_quoted(v.export_source_tree@) + ",\"outcome\":"@ + json_quoted(archive_outcome(v))
        + ",\"entries\":["@ + joined(v.entries@.map_values(|r: EntryReport| entry_json(r))) + "]}"@
}

/// Full verification, as one line of deterministic JSON.
pub fn render_verification_json(verification: &ArchiveVerification) -> (s: String)
    ensures
        s@ == verification_json(*verification),
{
    let ghost parts = verification.entries@.map_values(|r: EntryReport| entry_json(r));
    let mut items: Vec<char> = Vec::new();
    let mut i: usize = 0;
    assert(parts.take(0) =~= Seq::<Seq<char>>::empty());
    assert(items@ =~= joined(Seq::empty()));
    while i < verification.entries.len()
        invariant
            i <= verification.entries@.len(),
            parts == verification.entries@.map_values(|r: EntryReport| entry_json(r)),
            items@ == joined(parts.take(i as int)),
        decreases verification.entries.len() - i,
    {
        proof {
            lemma_joined_push(parts.take(i as int), parts[i as int]);
            assert(parts.take(i + 1) =~= parts.take(i as int).push(parts[i as int]));
        }
        if i > 0 {
            push_str_chars(&mut items, ",");
        }
        push_entry_json(&mut items, &verification.entries[i]);
        i = i + 1;
    }
    assert(parts.take(i as int) =~= parts);
    let mut out: Vec<char> = Vec::new();
    push_str_chars(&mut out, "{\"schema\":");
    assert(out@ =~= "{\"schema\":"@);
    push_decimal(&mut out, ARCHIVE_SCHEMA);
    push_str_chars(&mut out, ",\"index\":");
    push_json_string(&mut out, verification.index_path.as_str());
    push_str_chars(&mut out, ",\"export_source_main\":");
    push_json_string(&mut out, verification.export_source_main.as_str());
    push_str_chars(&mut out, ",\"export_source_tree\":");
    push_json_string(&mut out, verification.export_source_tree.as_str());
    push_str_chars(&mut out, ",\"outcome\":");
    push_json_string(&mut out, verification.outcome());
    push_str_chars(&mut out, ",\"entries\":[");
    push_all(&mut out, &items);
    push_str_chars(&mut out, "]}");
    assert(out@ == verification_json(*verification));
    string_from(&out)
}

pub open spec fn failure_json(command: Seq<char>, f: ArchiveFailureView) -> Seq<char> {
    "{\"schema\":"@ + decimal(ARCHIVE_SCHEMA as nat) + ",\"command\":"@ + json_quoted(command)
        + ",\"outcome\":\"ARCHIVE_FAILURE\",\"error\":"@ + json_quoted(archive_failure_text(f)) + "}"@
}

/// A failure of the archive, as deterministic JSON.
pub fn render_failure_json(command: &str, failure: &ArchiveFailure) -> (s: String)
    ensures
        s@ == failure_json(command@, archive_failure_view(*failure)),
{
    let m = failure.message();
    let mut out: Vec<char> = Vec::new();
    push_str_chars(&mut out, "{\"schema\":");
    assert(out@ =~= "{\"schema\":"@);
    push_decimal(&mut out, ARCHIVE_SCHEMA);
    push_str_chars(&mut out, ",\"command\":");
    push_json_string(&mut out, command);
    push_str_chars(&mut out, ",\"outcome\":\"ARCHIVE_FAILURE\",\"error\":");
    push_json_string(&mut out, m.as_str());
    push_str_chars(&mut out, "}");
    assert(out@ == failure_json(command@, archive_failure_view(*failure)));
    string_from(&out)
}


// ---------------------------------------------------------------------------
// Strict reader of the index: a root table of provenance fields and one
// `[[entries]]` table per archived state.
// ---------------------------------------------------------------------------

/// The integer a text spells, as `u64::from_str` reads it: an optional `+`
/// and decimal digits that fit.
pub open spec fn unsigned_digits(t: Seq<char>) -> Seq<char> {
    if t.len() > 0 && t[0] == '+' {
        t.drop_first()
    } else {
        t
    }
}

pub open spec fn all_digits(d: Seq<char>) -> bool {
    forall|i: int| 0 <= i < d.len() ==> is_digit(#[trigger] d[i])
}

pub open spec fn u64_text(t: Seq<char>) -> Option<u64> {
    let d = unsigned_digits(t);
    if d.len() > 0 && all_digits(d) && digits_value(d) <= u64::MAX {
        Some(digits_value(d) as u64)
    } else {
        None
    }
}

pub(crate) fn parse_u64(t: &Vec<char>) -> (r: Option<u64>)
    ensures
        r == u64_text(t@),
{
    let start: usize = if t.len() > 0 && t[0] == '+' {
        1
    } else {
        0
    };
    let d = crate::text::slice_vec(t, start, t.len());
    assert(d@ =~= unsigned_digits(t@));
    if d.len() == 0 {
        return None;
    }
    let mut k: usize = 0;
    while k < d.len()
        invariant
            k <= d@.len(),
            d@ == unsigned_digits(t@),
            forall|j: int| 0 <= j < k ==> is_digit(#[trigger] d@[j]),
        decreases d.len() - k,
    {
        if !('0' <= d[k] && d[k] <= '9') {
            assert(!is_digit(d@[k as int]));
            assert(!all_digits(d@));
            return None;
        }
        k = k + 1;
    }
    assert(all_digits(d@));
    parse_digits(&d)
}

/// A quoted text from position `i` of what follows its opening quote.
pub open spec fn archive_quoted(rest: Seq<char>, i: int, acc: Seq<char>) -> Result<ScalarView, Seq<char>>
    decreases rest.len() - i,
{
    if i < 0 || i >= rest.len() {
        Err("string sem aspas de fechamento"@)
    } else if rest[i] == '"' {
        if trim(rest.subrange(i + 1, rest.len() as int)).len() == 0 {
            Ok(ScalarView::Text(acc))
        } else {
            Err("dado residual após o valor"@)
        }
    } else if rest[i] == '\\' {
        if i + 1 >= rest.len() {
            Err("escape incompleto"@)
        } else {
            match unescape(rest[i + 1]) {
                Some(c) => archive_quoted(rest, i + 2, acc.push(c)),
                None => Err("escape não suportado '\\"@ + seq![rest[i + 1]] + "'"@),
            }
        }
    } else {
        archive_quoted(rest, i + 1, acc.push(rest[i]))
    }
}

/// A value of the index: a basic string with explicit escapes, or an
/// unsigned integer.
pub open spec fn archive_scalar(raw: Seq<char>) -> Result<ScalarView, Seq<char>> {
    let t = trim(raw);
    if t.len() > 0 && t[0] == '"' {
        archive_quoted(t.drop_first(), 0, Seq::empty())
    } else {
        match u64_text(t) {
            Some(n) => Ok(ScalarView::Integer(n)),
            None => Err("valor não reconhecido '"@ + t + "'"@),
        }
    }
}

fn quoted_exec(rest: &Vec<char>) -> (r: Result<Scalar, Vec<char>>)
    ensures
        match archive_quoted(rest@, 0, Seq::empty()) {
            Ok(v) => r matches Ok(s) && scalar_view(s) == v,
            Err(m) => r matches Err(e) && e@ == m,
        },
{
    let mut acc: Vec<char> = Vec::new();
    let mut i: usize = 0;
    while i < rest.len()
        invariant
            i <= rest@.len() + 1,
            archive_quoted(rest@, 0, Seq::empty()) == archive_quoted(rest@, i as int, acc@),
        decreases rest.len() + 1 - i,
    {
        let c = rest[i];
        if c == '"' {
            let tail = crate::text::trimmed(rest, i + 1, rest.len());
            if tail.len() == 0 {
                return Ok(Scalar::Text(string_from(&acc)));
            }
            return Err(chars_of("dado residual após o valor"));
        } else if c == '\\' {
            if i + 1 >= rest.len() {
                return Err(chars_of("escape incompleto"));
            }
            let e = rest[i + 1];
            let d = if e == '"' {
                '"'
            } else if e == '\\' {
                '\\'
            } else if e == 'n' {
                '\n'
            } else if e == 'r' {
                '\r'
            } else if e == 't' {
                '\t'
            } else {
                let mut m: Vec<char> = Vec::new();
                push_str_chars(&mut m, "escape não suportado '\\");
                m.push(e);
                push_str_chars(&mut m, "'");
                return Err(m);
            };
            acc.push(d);
            i = i + 2;
        } else {
            acc.push(c);
            i = i + 1;
        }
    }
    Err(chars_of("string sem aspas de fechamento"))
}

fn scalar_exec(raw: &Vec<char>) -> (r: Result<Scalar, Vec<char>>)
    ensures
        match archive_scalar(raw@) {
            Ok(v) => r matches Ok(s) && scalar_view(s) == v,
            Err(m) => r matches Err(e) && e@ == m,
        },
{
    let t = crate::text::trimmed(raw, 0, raw.len());
    assert(raw@.subrange(0, raw@.len() as int) =~= raw@);
    if t.len() > 0 && t[0] == '"' {
        let rest = crate::text::slice_vec(&t, 1, t.len());
        assert(rest@ =~= t@.drop_first());
        return quoted_exec(&rest);
    }
    match parse_u64(&t) {
        Some(n) => Ok(Scalar::Integer(n)),
        None => {
            let mut m: Vec<char> = Vec::new();
            push_str_chars(&mut m, "valor não reconhecido '");
            push_all(&mut m, &t);
            push_str_chars(&mut m, "'");
            Err(m)
        },
    }
}

/// The tables read so far.
pub struct ReadView {
    pub root: Seq<(Seq<char>, ScalarView)>,
    pub entries: Seq<Seq<(Seq<char>, ScalarView)>>,
    pub in_entry: bool,
}

pub open spec fn malformed(n: int, m: Seq<char>) -> ArchiveFailureView {
    ArchiveFailureView::Malformed { line: n as nat, msg: m }
}

/// A pair added to the current table; a repeated key is refused.
pub open spec fn add_pair(st: ReadView, key: Seq<char>, v: ScalarView, n: int) -> Result<ReadView, ArchiveFailureView> {
    if st.in_entry && st.entries.len() > 0 {
        let t = st.entries.last();
        if has_key(t, key) {
            Err(malformed(n, "chave duplicada '"@ + key + "'"@))
        } else {
            Ok(ReadView { entries: st.entries.update(st.entries.len() - 1, t.push((key, v))), ..st })
        }
    } else {
        if has_key(st.root, key) {
            Err(malformed(n, "chave duplicada '"@ + key + "'"@))
        } else {
            Ok(ReadView { root: st.root.push((key, v)), ..st })
        }
    }
}

/// Line `n` of the index, read from the state `st`.
pub open spec fn archive_line(st: ReadView, raw: Seq<char>, n: int) -> Result<ReadView, ArchiveFailureView> {
    let line = trim(raw);
    if line.len() == 0 || line[0] == '#' {
        Ok(st)
    } else if has_prefix(line, "[["@) {
        let rest = line.skip(2);
        if !has_suffix(rest, "]]"@) {
            Err(malformed(n, "cabeçalho de array de tabelas sem ']]'"@))
        } else {
            let name = trim(rest.take(rest.len() - 2));
            if name != "entries"@ {
                Err(malformed(n, "array de tabelas desconhecido '[["@ + name + "]]'"@))
            } else {
                Ok(ReadView { entries: st.entries.push(Seq::empty()), in_entry: true, ..st })
            }
        }
    } else if line[0] == '[' {
        Err(malformed(n, "o índice de arquivo não tem seções nomeadas"@))
    } else {
        match first_index(line, '=') {
            None => Err(malformed(n, "linha sem '='"@)),
            Some(eq) => match archive_scalar(line.skip(eq + 1)) {
                Err(m) => Err(malformed(n, m)),
                Ok(v) => add_pair(st, trim(line.take(eq)), v, n),
            },
        }
    }
}

/// The lines from `i` on.
pub open spec fn archive_lines(ls: Seq<Seq<char>>, i: int, st: ReadView) -> Result<ReadView, ArchiveFailureView>
    decreases ls.len() - i,
{
    if i < 0 || i >= ls.len() {
        Ok(st)
    } else {
        match archive_line(st, ls[i], i + 1) {
            Err(e) => Err(e),
            Ok(next) => archive_lines(ls, i + 1, next),
        }
    }
}

struct IndexReader {
    root: Table,
    entries: Vec<Table>,
    in_entry: bool,
}

impl IndexReader {
    spec fn read_view(self) -> ReadView {
        ReadView {
            root: table_view(self.root),
            entries: self.entries@.map_values(|t: Table| table_view(t)),
            in_entry: self.in_entry,
        }
    }

    spec fn wf(self) -> bool {
        self.in_entry ==> self.entries@.len() > 0
    }

    fn feed(&mut self, raw: &Vec<char>, n: usize) -> (r: Result<(), ArchiveFailure>)
        requires
            old(self).wf(),
        ensures
            final(self).wf(),
            match archive_line(old(self).read_view(), raw@, n as int) {
                Ok(st) => r is Ok && final(self).read_view() == st,
                Err(e) => r matches Err(x) && archive_failure_view(x) == e,
            },
    {
        let ghost st0 = self.read_view();
        let line = crate::text::trimmed(raw, 0, raw.len());
        assert(raw@.subrange(0, raw@.len() as int) =~= raw@);
        let len = line.len();
        if len == 0 || line[0] == '#' {
            return Ok(());
        }
        let open2 = chars_of("[[");
        proof {
            reveal_strlit("[[");
        }
        if crate::text::matches_at(&line, 0, &open2) {
            let rest = crate::text::slice_vec(&line, 2, len);
            assert(rest@ =~= line@.skip(2));
            let rl = rest.len();
            if !(rl >= 2 && rest[rl - 2] == ']' && rest[rl - 1] == ']') {
                proof {
                    if has_suffix(rest@, "]]"@) {
                        reveal_strlit("]]");
                        assert(rest@.subrange(rl - 2, rl as int)[0] == ']');
                        assert(rest@.subrange(rl - 2, rl as int)[1] == ']');
                    }
                }
                return Err(
                    ArchiveFailure::Malformed {
                        line: n,
                        msg: string_from(&chars_of("cabeçalho de array de tabelas sem ']]'")),
                    },
                );
            }
            proof {
                reveal_strlit("]]");
                assert(rest@.subrange(rl - 2, rl as int) =~= "]]"@);
            }
            let name = crate::text::trimmed(&rest, 0, rl - 2);
            assert(rest@.subrange(0, rl - 2) =~= rest@.take(rl - 2));
            if !crate::text::vec_eq(&name, &chars_of("entries")) {
                let mut m: Vec<char> = Vec::new();
                push_str_chars(&mut m, "array de tabelas desconhecido '[[");
                push_all(&mut m, &name);
                push_str_chars(&mut m, "]]'");
                return Err(ArchiveFailure::Malformed { line: n, msg: string_from(&m) });
            }
            let ghost e0 = self.entries@;
            self.entries.push(Table::new());
            self.in_entry = true;
            assert(self.entries@.map_values(|t: Table| table_view(t)) =~= e0.map_values(|t: Table| table_view(t)).push(
                Seq::empty(),
            ));
            return Ok(());
        }
        proof {
            reveal_strlit("[[");
        }
        if line[0] == '[' {
            return Err(
                ArchiveFailure::Malformed {
                    line: n,
                    msg: string_from(&chars_of("o índice de arquivo não tem seções nomeadas")),
                },
            );
        }
        let mut eq: usize = 0;
        while eq < len && line[eq] != '='
            invariant
                eq <= len,
                len == line@.len(),
                forall|j: int| 0 <= j < eq ==> line@[j] != '=',
            decreases len - eq,
        {
            eq = eq + 1;
        }
        if eq == len {
            proof {
                assert(!line@.contains('=')) by {
                    if line@.contains('=') {
                        let w = choose|i: int| 0 <= i < line@.len() && line@[i] == '=';
                        assert(line@[w] != '=');
                    }
                }
            }
            return Err(ArchiveFailure::Malformed { line: n, msg: string_from(&chars_of("linha sem '='")) });
        }
        proof {
            assert(line@.contains('='));
            let w = choose|i: int|
                0 <= i < line@.len() && line@[i] == '=' && forall|j: int| 0 <= j < i ==> line@[j] != '=';
            if w < eq {
                assert(line@[w] == '=');
            }
            if eq < w {
                assert(line@[eq as int] != '=');
            }
            assert(first_index(line@, '=') == Some(eq as int));
        }
        let rest = crate::text::slice_vec(&line, eq + 1, len);
        assert(rest@ =~= line@.skip(eq + 1));
        let v = match scalar_exec(&rest) {
            Ok(v) => v,
            Err(m) => {
                return Err(ArchiveFailure::Malformed { line: n, msg: string_from(&m) });
            },
        };
        let key = crate::text::trimmed(&line, 0, eq);
        assert(line@.subrange(0, eq as int) =~= line@.take(eq as int));
        let key_text = string_from(&key);
        if self.in_entry {
            let last = self.entries.len() - 1;
            let ghost e0 = self.entries@;
            let mut t = self.entries.remove(last);
            let ghost t0 = table_view(t);
            assert(e0[last as int] == t);
            let res = t.insert(key_text, v, n);
            self.entries.push(t);
            assert(self.entries@ =~= e0.update(last as int, t));
            assert(self.entries@.map_values(|x: Table| table_view(x)) =~= e0.map_values(|x: Table| table_view(x)).update(
                last as int,
                table_view(t),
            ));
            match res {
                Ok(()) => Ok(()),
                Err(e) => Err(ArchiveFailure::Malformed { line: e.line, msg: e.msg }),
            }
        } else {
            match self.root.insert(key_text, v, n) {
                Ok(()) => Ok(()),
                Err(e) => Err(ArchiveFailure::Malformed { line: e.line, msg: e.msg }),
            }
        }
    }
}


pub open spec fn empty_read() -> ReadView {
    ReadView { root: Seq::empty(), entries: Seq::empty(), in_entry: false }
}

/// The keys of the root table.
pub open spec fn root_keys() -> Seq<Seq<char>> {
    seq!["schema"@, "export_source_main"@, "export_source_tree"@, "export_method"@, "provenance"@]
}

/// The keys of an entry.
pub open spec fn entry_keys() -> Seq<Seq<char>> {
    seq![
        "id"@,
        "metadata_path"@,
        "metadata_sha256"@,
        "payload_path"@,
        "regions"@,
        "length"@,
        "fnv1a64"@,
        "sha256"@,
    ]
}

pub open spec fn text_field(t: Seq<(Seq<char>, ScalarView)>, scope: Seq<char>, field: Seq<char>) -> Result<
    Seq<char>,
    ArchiveFailureView,
> {
    match table_get(t, field) {
        Some(ScalarView::Text(v)) => Ok(v),
        Some(_) => Err(ArchiveFailureView::InvalidValue { scope, field, msg: "esperado texto"@ }),
        None => Err(ArchiveFailureView::MissingField { scope, field }),
    }
}

pub open spec fn integer_field(t: Seq<(Seq<char>, ScalarView)>, scope: Seq<char>, field: Seq<char>) -> Result<
    u64,
    ArchiveFailureView,
> {
    match table_get(t, field) {
        Some(ScalarView::Integer(n)) => Ok(n),
        Some(_) => Err(ArchiveFailureView::InvalidValue { scope, field, msg: "esperado inteiro"@ }),
        None => Err(ArchiveFailureView::MissingField { scope, field }),
    }
}

/// Declared but blank provenance is no provenance.
pub open spec fn nonempty_field(t: Seq<(Seq<char>, ScalarView)>, scope: Seq<char>, field: Seq<char>) -> Result<
    Seq<char>,
    ArchiveFailureView,
> {
    match text_field(t, scope, field) {
        Err(e) => Err(e),
        Ok(v) => if trim(v).len() == 0 {
            Err(ArchiveFailureView::InvalidValue { scope, field, msg: "proveniência declarada vazia"@ })
        } else {
            Ok(v)
        },
    }
}

/// A SHA-256 in 64 lower-case hexadecimal digits.
pub open spec fn is_sha(v: Seq<char>) -> bool {
    v.len() == SHA256_LEN && forall|i: int| 0 <= i < v.len() ==> is_hex_lower(#[trigger] v[i])
}

/// `fnv1a64:` followed by 16 lower-case hexadecimal digits.
pub open spec fn is_fnv(v: Seq<char>) -> bool {
    has_prefix(v, "fnv1a64:"@) && v.skip(8).len() == 16 && forall|i: int|
        0 <= i < v.skip(8).len() ==> is_hex_lower(#[trigger] v.skip(8)[i])
}

pub open spec fn sha_msg() -> Seq<char> {
    "esperado SHA-256 em 64 dígitos hexadecimais minúsculos"@
}

pub open spec fn fnv_msg() -> Seq<char> {
    "esperada a forma canônica 'fnv1a64:<16 hex>'"@
}

/// `entries[p].`, the scope of the entry at position `p`.
pub open spec fn entry_scope(p: nat) -> Seq<char> {
    "entries["@ + decimal(p) + "]."@
}

/// The entry that one table declares, with its fields checked in order.
pub open spec fn entry_of(t: Seq<(Seq<char>, ScalarView)>, p: nat) -> Result<EntryView, ArchiveFailureView> {
    let scope = entry_scope(p);
    match unknown_key(t, entry_keys()) {
        Some(k) => Err(ArchiveFailureView::UnknownField { scope, field: k }),
        None => match text_field(t, scope, "id"@) {
            Err(e) => Err(e),
            Ok(id) => match text_field(t, scope, "metadata_path"@) {
                Err(e) => Err(e),
                Ok(mp) => match text_field(t, scope, "metadata_sha256"@) {
                    Err(e) => Err(e),
                    Ok(ms) => match text_field(t, scope, "payload_path"@) {
                        Err(e) => Err(e),
                        Ok(pp) => match integer_field(t, scope, "regions"@) {
                            Err(e) => Err(e),
                            Ok(rg) => match integer_field(t, scope, "length"@) {
                                Err(e) => Err(e),
                                Ok(ln) => match text_field(t, scope, "fnv1a64"@) {
                                    Err(e) => Err(e),
                                    Ok(fv) => match text_field(t, scope, "sha256"@) {
                                        Err(e) => Err(e),
                                        Ok(sh) => if !is_sha(ms) {
                                            Err(
                                                ArchiveFailureView::InvalidValue {
                                                    scope,
                                                    field: "metadata_sha256"@,
                                                    msg: sha_msg(),
                                                },
                                            )
                                        } else if !is_sha(sh) {
                                            Err(ArchiveFailureView::InvalidValue { scope, field: "sha256"@, msg: sha_msg() })
                                        } else if !is_fnv(fv) {
                                            Err(ArchiveFailureView::InvalidValue { scope, field: "fnv1a64"@, msg: fnv_msg() })
                                        } else if id.len() == 0 {
                                            Err(
                                                ArchiveFailureView::InvalidValue {
                                                    scope,
                                                    field: "id"@,
                                                    msg: "identidade vazia"@,
                                                },
                                            )
                                        } else {
                                            Ok(
                                                EntryView {
                                                    id,
                                                    metadata_path: mp,
                                                    metadata_sha256: ms,
                                                    payload_path: pp,
                                                    regions: rg,
                                                    length: ln,
                                                    fnv1a64: fv,
                                                    sha256: sh,
                                                },
                                            )
                                        },
                                    },
                                },
                            },
                        },
                    },
                },
            },
        },
    }
}

/// The entries of the tables from position `i` on; the first failure wins.
pub open spec fn entries_from(ts: Seq<Seq<(Seq<char>, ScalarView)>>, i: int) -> Result<Seq<EntryView>, ArchiveFailureView>
    decreases ts.len() - i,
{
    if i < 0 || i >= ts.len() {
        Ok(Seq::empty())
    } else {
        match entry_of(ts[i], i as nat) {
            Err(e) => Err(e),
            Ok(e) => match entries_from(ts, i + 1) {
                Err(x) => Err(x),
                Ok(rest) => Ok(seq![e] + rest),
            },
        }
    }
}

/// The first entry, from `i` on, that repeats the identifier or the payload
/// path of an earlier one.
pub open spec fn duplicate_from(es: Seq<EntryView>, i: int) -> Option<ArchiveFailureView>
    decreases es.len() - i,
{
    if i < 0 || i >= es.len() {
        None
    } else if exists|j: int| 0 <= j < i && #[trigger] es[j].id == es[i].id {
        Some(ArchiveFailureView::DuplicateId { id: es[i].id })
    } else if exists|j: int| 0 <= j < i && #[trigger] es[j].payload_path == es[i].payload_path {
        Some(ArchiveFailureView::DuplicatePath { path: es[i].payload_path })
    } else {
        duplicate_from(es, i + 1)
    }
}

pub open spec fn canonical_payload(id: Seq<char>) -> Seq<char> {
    ARCHIVE_DIR@ + "/"@ + id + PAYLOAD_SUFFIX@
}

pub open spec fn canonical_metadata(id: Seq<char>) -> Seq<char> {
    METADATA_DIR@ + "/"@ + id + METADATA_SUFFIX@
}

pub open spec fn unconfined(scope: Seq<char>, field: Seq<char>, path: Seq<char>, canonical: Seq<char>) -> ArchiveFailureView {
    ArchiveFailureView::UnconfinedPath {
        scope,
        field,
        path,
        msg: "esperado o path canônico '"@ + canonical + "'"@,
    }
}

/// The first entry, from `i` on, whose payload or metadata path is not the
/// canonical path of its identifier.
pub open spec fn unconfined_from(es: Seq<EntryView>, i: int) -> Option<ArchiveFailureView>
    decreases es.len() - i,
{
    if i < 0 || i >= es.len() {
        None
    } else if es[i].payload_path != canonical_payload(es[i].id) {
        Some(unconfined(entry_scope(i as nat), "payload_path"@, es[i].payload_path, canonical_payload(es[i].id)))
    } else if es[i].metadata_path != canonical_metadata(es[i].id) {
        Some(
            unconfined(entry_scope(i as nat), "metadata_path"@, es[i].metadata_path, canonical_metadata(es[i].id)),
        )
    } else {
        unconfined_from(es, i + 1)
    }
}

pub open spec fn entry_key() -> spec_fn(EntryView) -> Seq<char> {
    |e: EntryView| e.id
}

/// The entries in the order of their identifiers.
pub open spec fn sorted_entries(es: Seq<EntryView>) -> Seq<EntryView>
    decreases es.len(),
{
    if es.len() == 0 {
        es
    } else {
        crate::nav_projection_store::put(sorted_entries(es.drop_last()), entry_key(), es.last())
    }
}

/// The entries of an index: at least one, each valid, none repeating an
/// identifier or a payload path, each at its canonical paths; in the order
/// of their identifiers.
pub open spec fn entries_built(ts: Seq<Seq<(Seq<char>, ScalarView)>>) -> Result<Seq<EntryView>, ArchiveFailureView> {
    if ts.len() == 0 {
        Err(ArchiveFailureView::Empty)
    } else {
        match entries_from(ts, 0) {
            Err(e) => Err(e),
            Ok(es) => match duplicate_from(es, 0) {
                Some(f) => Err(f),
                None => match unconfined_from(es, 0) {
                    Some(f) => Err(f),
                    None => Ok(sorted_entries(es)),
                },
            },
        }
    }
}

/// The index that the tables read declare.
pub open spec fn index_of(st: ReadView) -> Result<IndexView, ArchiveFailureView> {
    match unknown_key(st.root, root_keys()) {
        Some(k) => Err(ArchiveFailureView::UnknownField { scope: Seq::empty(), field: k }),
        None => match integer_field(st.root, Seq::empty(), "schema"@) {
            Err(e) => Err(e),
            Ok(schema) => if schema != ARCHIVE_SCHEMA {
                Err(ArchiveFailureView::UnsupportedSchema { schema })
            } else {
                match nonempty_field(st.root, Seq::empty(), "export_source_main"@) {
                    Err(e) => Err(e),
                    Ok(main) => match nonempty_field(st.root, Seq::empty(), "export_source_tree"@) {
                        Err(e) => Err(e),
                        Ok(tree) => match nonempty_field(st.root, Seq::empty(), "export_method"@) {
                            Err(e) => Err(e),
                            Ok(method) => match nonempty_field(st.root, Seq::empty(), "provenance"@) {
                                Err(e) => Err(e),
                                Ok(prov) => match entries_built(st.entries) {
                                    Err(e) => Err(e),
                                    Ok(es) => Ok(
                                        IndexView {
                                            schema,
                                            export_source_main: main,
                                            export_source_tree: tree,
                                            export_method: method,
                                            provenance: prov,
                                            entries: es,
                                        },
                                    ),
                                },
                            },
                        },
                    },
                }
            },
        },
    }
}

/// What the text of an index declares.
pub open spec fn index_spec(text: Seq<char>) -> Result<IndexView, ArchiveFailureView> {
    match archive_lines(lines(text), 0, empty_read()) {
        Err(e) => Err(e),
        Ok(st) => index_of(st),
    }
}

proof fn lemma_entries_from_len(ts: Seq<Seq<(Seq<char>, ScalarView)>>, i: int)
    requires
        0 <= i <= ts.len(),
        entries_from(ts, i) is Ok,
    ensures
        entries_from(ts, i)->Ok_0.len() == ts.len() - i,
    decreases ts.len() - i,
{
    if i < ts.len() {
        lemma_entries_from_len(ts, i + 1);
    }
}

proof fn lemma_sorted_entries(es: Seq<EntryView>)
    ensures
        crate::nav_projection_recipe::ids_increasing(sorted_entries(es).map_values(entry_key())),
        es.len() > 0 ==> sorted_entries(es).len() > 0,
    decreases es.len(),
{
    if es.len() == 0 {
        assert(sorted_entries(es).map_values(entry_key()).len() == 0);
    } else {
        lemma_sorted_entries(es.drop_last());
        crate::nav_projection_store::lemma_put_increasing(sorted_entries(es.drop_last()), entry_key(), es.last());
    }
}

/// A parsed index declares schema 1 and at least one entry, and its entries
/// come in strictly increasing identifier order, so no identifier repeats.
pub proof fn law_parsed_index(text: Seq<char>)
    requires
        index_spec(text) is Ok,
    ensures
        index_spec(text)->Ok_0.schema == ARCHIVE_SCHEMA,
        index_spec(text)->Ok_0.entries.len() > 0,
        crate::nav_projection_recipe::ids_increasing(index_spec(text)->Ok_0.entries.map_values(entry_key())),
{
    let st = archive_lines(lines(text), 0, empty_read())->Ok_0;
    let ts = st.entries;
    let es = entries_from(ts, 0)->Ok_0;
    lemma_entries_from_len(ts, 0);
    lemma_sorted_entries(es);
}

fn owned(s: &str) -> (r: String)
    ensures
        r@ == s@,
{
    s.to_owned()
}

fn first_unknown(t: &Table, allowed: &Vec<&str>) -> (r: Option<String>)
    ensures
        match unknown_key(table_view(*t), strs(allowed@)) {
            Some(k) => r matches Some(x) && x@ == k,
            None => r is None,
        },
{
    let ghost tv = table_view(*t);
    let mut i: usize = 0;
    assert(tv.skip(0) =~= tv);
    while i < t.pairs.len()
        invariant
            i <= t.pairs@.len(),
            tv == table_view(*t),
            unknown_key(tv, strs(allowed@)) == unknown_key(tv.skip(i as int), strs(allowed@)),
        decreases t.pairs.len() - i,
    {
        assert(tv.skip(i as int)[0] == tv[i as int]);
        assert(tv.skip(i as int).drop_first() =~= tv.skip(i + 1));
        let key = t.pairs[i].0.as_str();
        if !str_listed(allowed, key) {
            return Some(owned(key));
        }
        i = i + 1;
    }
    assert(tv.skip(i as int).len() == 0);
    None
}

fn require_text(t: &Table, scope: &str, field: &str) -> (r: Result<String, ArchiveFailure>)
    ensures
        match text_field(table_view(*t), scope@, field@) {
            Ok(v) => r matches Ok(x) && x@ == v,
            Err(e) => r matches Err(x) && archive_failure_view(x) == e,
        },
{
    match t.get(field) {
        Some(Scalar::Text(v)) => Ok(v.clone()),
        Some(_) => Err(
            ArchiveFailure::InvalidValue { scope: owned(scope), field: owned(field), msg: owned("esperado texto") },
        ),
        None => Err(ArchiveFailure::MissingField { scope: owned(scope), field: owned(field) }),
    }
}

fn require_integer(t: &Table, scope: &str, field: &str) -> (r: Result<u64, ArchiveFailure>)
    ensures
        match integer_field(table_view(*t), scope@, field@) {
            Ok(v) => r matches Ok(x) && x == v,
            Err(e) => r matches Err(x) && archive_failure_view(x) == e,
        },
{
    match t.get(field) {
        Some(Scalar::Integer(n)) => Ok(*n),
        Some(_) => Err(
            ArchiveFailure::InvalidValue { scope: owned(scope), field: owned(field), msg: owned("esperado inteiro") },
        ),
        None => Err(ArchiveFailure::MissingField { scope: owned(scope), field: owned(field) }),
    }
}

fn require_nonempty(t: &Table, scope: &str, field: &str) -> (r: Result<String, ArchiveFailure>)
    ensures
        match nonempty_field(table_view(*t), scope@, field@) {
            Ok(v) => r matches Ok(x) && x@ == v,
            Err(e) => r matches Err(x) && archive_failure_view(x) == e,
        },
{
    let v = require_text(t, scope, field)?;
    let c = chars_of(v.as_str());
    assert(c@.subrange(0, c@.len() as int) =~= c@);
    if crate::text::trimmed(&c, 0, c.len()).len() == 0 {
        return Err(
            ArchiveFailure::InvalidValue {
                scope: owned(scope),
                field: owned(field),
                msg: owned("proveniência declarada vazia"),
            },
        );
    }
    Ok(v)
}

fn hex_run(v: &Vec<char>, from: usize) -> (b: bool)
    requires
        from <= v@.len(),
    ensures
        b == forall|i: int| from <= i < v@.len() ==> is_hex_lower(#[trigger] v@[i]),
{
    let mut i = from;
    while i < v.len()
        invariant
            from <= i <= v@.len(),
            forall|j: int| from <= j < i ==> is_hex_lower(#[trigger] v@[j]),
        decreases v.len() - i,
    {
        let c = v[i];
        if !(('0' <= c && c <= '9') || ('a' <= c && c <= 'f')) {
            assert(!is_hex_lower(v@[i as int]));
            return false;
        }
        i = i + 1;
    }
    true
}

fn sha_ok(v: &String) -> (b: bool)
    ensures
        b == is_sha(v@),
{
    let c = chars_of(v.as_str());
    c.len() == SHA256_LEN && hex_run(&c, 0)
}

fn fnv_ok(v: &String) -> (b: bool)
    ensures
        b == is_fnv(v@),
{
    let c = chars_of(v.as_str());
    let p = chars_of("fnv1a64:");
    proof {
        reveal_strlit("fnv1a64:");
    }
    if !crate::text::matches_at(&c, 0, &p) {
        return false;
    }
    if c.len() != 24 {
        return false;
    }
    let b = hex_run(&c, 8);
    proof {
        assert forall|i: int| 0 <= i < c@.skip(8).len() implies c@.skip(8)[i] == c@[i + 8] by {}
        if b {
            assert forall|i: int| 0 <= i < c@.skip(8).len() implies is_hex_lower(#[trigger] c@.skip(8)[i]) by {
                assert(c@.skip(8)[i] == c@[i + 8]);
            }
        } else {
            let w = choose|i: int| 8 <= i < c@.len() && !is_hex_lower(#[trigger] c@[i]);
            assert(c@.skip(8)[w - 8] == c@[w]);
        }
    }
    b
}

fn entry_scope_text(p: usize) -> (s: String)
    ensures
        s@ == entry_scope(p as nat),
{
    let mut v: Vec<char> = Vec::new();
    push_str_chars(&mut v, "entries[");
    push_decimal(&mut v, p as u64);
    push_str_chars(&mut v, "].");
    string_from(&v)
}

fn entry_keys_list() -> (v: Vec<&'static str>)
    ensures
        strs(v@) == entry_keys(),
{
    let mut v: Vec<&'static str> = Vec::new();
    v.push("id");
    v.push("metadata_path");
    v.push("metadata_sha256");
    v.push("payload_path");
    v.push("regions");
    v.push("length");
    v.push("fnv1a64");
    v.push("sha256");
    assert(strs(v@) =~= entry_keys());
    v
}

fn root_keys_list() -> (v: Vec<&'static str>)
    ensures
        strs(v@) == root_keys(),
{
    let mut v: Vec<&'static str> = Vec::new();
    v.push("schema");
    v.push("export_source_main");
    v.push("export_source_tree");
    v.push("export_method");
    v.push("provenance");
    assert(strs(v@) =~= root_keys());
    v
}

fn build_entry(t: &Table, p: usize) -> (r: Result<ArchiveEntry, ArchiveFailure>)
    ensures
        match entry_of(table_view(*t), p as nat) {
            Ok(v) => r matches Ok(e) && entry_view(e) == v,
            Err(f) => r matches Err(e) && archive_failure_view(e) == f,
        },
{
    let scope = entry_scope_text(p);
    let keys = entry_keys_list();
    match first_unknown(t, &keys) {
        Some(k) => {
            return Err(ArchiveFailure::UnknownField { scope, field: k });
        },
        None => {},
    }
    let id = require_text(t, scope.as_str(), "id")?;
    let metadata_path = require_text(t, scope.as_str(), "metadata_path")?;
    let metadata_sha256 = require_text(t, scope.as_str(), "metadata_sha256")?;
    let payload_path = require_text(t, scope.as_str(), "payload_path")?;
    let regions = require_integer(t, scope.as_str(), "regions")?;
    let length = require_integer(t, scope.as_str(), "length")?;
    let fnv = require_text(t, scope.as_str(), "fnv1a64")?;
    let sha256 = require_text(t, scope.as_str(), "sha256")?;
    if !sha_ok(&metadata_sha256) {
        return Err(
            ArchiveFailure::InvalidValue {
                scope,
                field: owned("metadata_sha256"),
                msg: owned("esperado SHA-256 em 64 dígitos hexadecimais minúsculos"),
            },
        );
    }
    if !sha_ok(&sha256) {
        return Err(
            ArchiveFailure::InvalidValue {
                scope,
                field: owned("sha256"),
                msg: owned("esperado SHA-256 em 64 dígitos hexadecimais minúsculos"),
            },
        );
    }
    if !fnv_ok(&fnv) {
        return Err(
            ArchiveFailure::InvalidValue {
                scope,
                field: owned("fnv1a64"),
                msg: owned("esperada a forma canônica 'fnv1a64:<16 hex>'"),
            },
        );
    }
    if chars_of(id.as_str()).len() == 0 {
        return Err(ArchiveFailure::InvalidValue { scope, field: owned("id"), msg: owned("identidade vazia") });
    }
    Ok(ArchiveEntry { id, metadata_path, metadata_sha256, payload_path, regions, length, fnv1a64: fnv, sha256 })
}


fn build_all(tables: &Vec<Table>) -> (r: Result<Vec<ArchiveEntry>, ArchiveFailure>)
    ensures
        match entries_from(tables@.map_values(|t: Table| table_view(t)), 0) {
            Ok(v) => r matches Ok(es) && entries_view(es@) == v,
            Err(f) => r matches Err(e) && archive_failure_view(e) == f,
        },
{
    let ghost ts = tables@.map_values(|t: Table| table_view(t));
    let mut out: Vec<ArchiveEntry> = Vec::new();
    let mut i: usize = 0;
    assert(entries_view(out@) =~= Seq::<EntryView>::empty());
    while i < tables.len()
        invariant
            i <= tables@.len(),
            ts == tables@.map_values(|t: Table| table_view(t)),
            entries_from(ts, 0) == match entries_from(ts, i as int) {
                Ok(rest) => Ok(entries_view(out@) + rest),
                Err(e) => Err(e),
            },
        decreases tables.len() - i,
    {
        let e = build_entry(&tables[i], i);
        match e {
            Err(f) => {
                return Err(f);
            },
            Ok(entry) => {
                let ghost before = entries_view(out@);
                out.push(entry);
                proof {
                    assert(entries_view(out@) =~= before.push(entry_view(entry)));
                    match entries_from(ts, i + 1) {
                        Ok(rest) => {
                            assert(before + (seq![entry_view(entry)] + rest) =~= entries_view(out@) + rest);
                        },
                        Err(_) => {},
                    }
                }
            },
        }
        i = i + 1;
    }
    assert(entries_view(out@) + Seq::<EntryView>::empty() =~= entries_view(out@));
    Ok(out)
}

fn reject_duplicates(es: &Vec<ArchiveEntry>) -> (r: Result<(), ArchiveFailure>)
    ensures
        match duplicate_from(entries_view(es@), 0) {
            Some(f) => r matches Err(e) && archive_failure_view(e) == f,
            None => r is Ok,
        },
{
    let ghost ev = entries_view(es@);
    let mut i: usize = 0;
    while i < es.len()
        invariant
            i <= es@.len(),
            ev == entries_view(es@),
            duplicate_from(ev, 0) == duplicate_from(ev, i as int),
        decreases es.len() - i,
    {
        let mut same_id = false;
        let mut same_path = false;
        let mut j: usize = 0;
        while j < i
            invariant
                j <= i < es@.len(),
                ev == entries_view(es@),
                same_id == exists|k: int| 0 <= k < j && #[trigger] ev[k].id == ev[i as int].id,
                same_path == exists|k: int| 0 <= k < j && #[trigger] ev[k].payload_path == ev[i as int].payload_path,
            decreases i - j,
        {
            if crate::text::str_eq(es[j].id.as_str(), es[i].id.as_str()) {
                same_id = true;
            }
            if crate::text::str_eq(es[j].payload_path.as_str(), es[i].payload_path.as_str()) {
                same_path = true;
            }
            proof {
                if ev[j as int].id == ev[i as int].id {
                    assert(exists|k: int| 0 <= k < j + 1 && #[trigger] ev[k].id == ev[i as int].id);
                }
                if ev[j as int].payload_path == ev[i as int].payload_path {
                    assert(exists|k: int| 0 <= k < j + 1 && #[trigger] ev[k].payload_path == ev[i as int].payload_path);
                }
            }
            j = j + 1;
        }
        if same_id {
            return Err(ArchiveFailure::DuplicateId { id: es[i].id.clone() });
        }
        if same_path {
            return Err(ArchiveFailure::DuplicatePath { path: es[i].payload_path.clone() });
        }
        i = i + 1;
    }
    Ok(())
}

fn canonical_text(dir: &str, id: &str, suffix: &str) -> (s: String)
    ensures
        s@ == dir@ + "/"@ + id@ + suffix@,
{
    let mut v: Vec<char> = Vec::new();
    push_str_chars(&mut v, dir);
    push_str_chars(&mut v, "/");
    push_str_chars(&mut v, id);
    push_str_chars(&mut v, suffix);
    string_from(&v)
}

fn unconfined_failure(p: usize, field: &str, path: &String, canonical: &String) -> (e: ArchiveFailure)
    ensures
        archive_failure_view(e) == unconfined(entry_scope(p as nat), field@, path@, canonical@),
{
    let mut m: Vec<char> = Vec::new();
    push_str_chars(&mut m, "esperado o path canônico '");
    push_str_chars(&mut m, canonical.as_str());
    push_str_chars(&mut m, "'");
    ArchiveFailure::UnconfinedPath {
        scope: entry_scope_text(p),
        field: owned(field),
        path: path.clone(),
        msg: string_from(&m),
    }
}

fn require_canonical_paths(es: &Vec<ArchiveEntry>) -> (r: Result<(), ArchiveFailure>)
    ensures
        match unconfined_from(entries_view(es@), 0) {
            Some(f) => r matches Err(e) && archive_failure_view(e) == f,
            None => r is Ok,
        },
{
    let ghost ev = entries_view(es@);
    let mut i: usize = 0;
    while i < es.len()
        invariant
            i <= es@.len(),
            ev == entries_view(es@),
            unconfined_from(ev, 0) == unconfined_from(ev, i as int),
        decreases es.len() - i,
    {
        let e = &es[i];
        let payload = canonical_text(ARCHIVE_DIR, e.id.as_str(), PAYLOAD_SUFFIX);
        if !crate::text::str_eq(e.payload_path.as_str(), payload.as_str()) {
            return Err(unconfined_failure(i, "payload_path", &e.payload_path, &payload));
        }
        let metadata = canonical_text(METADATA_DIR, e.id.as_str(), METADATA_SUFFIX);
        if !crate::text::str_eq(e.metadata_path.as_str(), metadata.as_str()) {
            return Err(unconfined_failure(i, "metadata_path", &e.metadata_path, &metadata));
        }
        i = i + 1;
    }
    Ok(())
}

fn put_entry(v: &mut Vec<ArchiveEntry>, x: ArchiveEntry)
    requires
        crate::nav_projection_recipe::ids_increasing(entries_view(old(v)@).map_values(entry_key())),
    ensures
        crate::nav_projection_recipe::ids_increasing(entries_view(final(v)@).map_values(entry_key())),
        entries_view(final(v)@) == crate::nav_projection_store::put(entries_view(old(v)@), entry_key(), entry_view(x)),
{
    let ghost sv = entries_view(v@);
    let ghost ids = sv.map_values(entry_key());
    let mut rs: Vec<Vec<char>> = Vec::new();
    let mut i: usize = 0;
    while i < v.len()
        invariant
            i <= v@.len(),
            sv == entries_view(v@),
            ids == sv.map_values(entry_key()),
            rs@.len() == i,
            forall|j: int| 0 <= j < i ==> #[trigger] rs@[j]@ == ids[j],
        decreases v.len() - i,
    {
        rs.push(chars_of(v[i].id.as_str()));
        i = i + 1;
    }
    assert(crate::text::rows(rs@) =~= ids);
    let xid = chars_of(x.id.as_str());
    let k = crate::nav_projection_recipe::slot(&rs, &xid);
    proof {
        crate::nav_projection_store::lemma_first_not_below(ids, xid@, k as int, 0);
    }
    if k < v.len() && crate::text::vec_eq(&rs[k], &xid) {
        v.set(k, x);
        assert(entries_view(v@) =~= sv.update(k as int, entry_view(x)));
        assert(entries_view(v@).map_values(entry_key()) =~= ids);
    } else {
        proof {
            if k < ids.len() {
                crate::text::lemma_seq_lt_total(ids[k as int], xid@);
            }
            crate::nav_projection_recipe::lemma_insert_increasing(ids, k as int, xid@);
        }
        v.insert(k, x);
        assert(entries_view(v@) =~= sv.insert(k as int, entry_view(x)));
        assert(entries_view(v@).map_values(entry_key()) =~= ids.insert(k as int, xid@));
    }
}

fn sort_entries(es: Vec<ArchiveEntry>) -> (r: Vec<ArchiveEntry>)
    ensures
        entries_view(r@) == sorted_entries(entries_view(es@)),
{
    let ghost ev = entries_view(es@);
    let mut out: Vec<ArchiveEntry> = Vec::new();
    let mut rest = es;
    let mut i: usize = 0;
    let n = rest.len();
    assert(ev.take(0) =~= Seq::<EntryView>::empty());
    assert(entries_view(out@).map_values(entry_key()) =~= Seq::<Seq<char>>::empty());
    while rest.len() > 0
        invariant
            n == ev.len(),
            i + rest@.len() == n,
            entries_view(rest@) == ev.skip(i as int),
            entries_view(out@) == sorted_entries(ev.take(i as int)),
            crate::nav_projection_recipe::ids_increasing(entries_view(out@).map_values(entry_key())),
        decreases rest.len(),
    {
        let ghost r0 = rest@;
        let x = rest.remove(0);
        proof {
            assert(entries_view(r0)[0] == entry_view(r0[0]));
            assert(entry_view(x) == ev[i as int]) by {
                assert(ev.skip(i as int)[0] == ev[i as int]);
            }
            assert(rest@ =~= r0.drop_first());
            assert(entries_view(rest@) =~= entries_view(r0).drop_first());
            assert(entries_view(rest@) =~= ev.skip(i + 1));
            assert(ev.take(i + 1).drop_last() =~= ev.take(i as int));
            assert(ev.take(i + 1).last() == ev[i as int]);
        }
        put_entry(&mut out, x);
        i = i + 1;
    }
    assert(ev.take(i as int) =~= ev);
    out
}

/// Reads the text of the index. Nothing here touches the file system.
pub fn parse_index(text: &str) -> (r: Result<ArchiveIndex, ArchiveFailure>)
    ensures
        match index_spec(text@) {
            Ok(v) => r matches Ok(i) && index_view(i) == v,
            Err(f) => r matches Err(e) && archive_failure_view(e) == f,
        },
{
    let chars = chars_of(text);
    let ls = crate::text::split_lines(&chars);
    let ghost all = lines(text@);
    let mut reader = IndexReader { root: Table::new(), entries: Vec::new(), in_entry: false };
    assert(reader.entries@ =~= Seq::<Table>::empty());
    assert(reader.entries@.map_values(|t: Table| table_view(t)) =~= Seq::<Seq<(Seq<char>, ScalarView)>>::empty());
    assert(reader.read_view() =~= empty_read());
    let mut i: usize = 0;
    while i < ls.len()
        invariant
            i <= ls@.len(),
            all == lines(text@),
            ls@.len() == all.len(),
            forall|k: int| 0 <= k < ls@.len() ==> #[trigger] ls@[k]@ == all[k],
            reader.wf(),
            archive_lines(all, 0, empty_read()) == archive_lines(all, i as int, reader.read_view()),
        decreases ls.len() - i,
    {
        assert(ls@[i as int]@ == all[i as int]);
        match reader.feed(&ls[i], i + 1) {
            Ok(()) => {},
            Err(e) => {
                return Err(e);
            },
        }
        i = i + 1;
    }
    let ghost st = reader.read_view();
    assert(archive_lines(all, i as int, st) == Ok::<ReadView, ArchiveFailureView>(st));
    assert(index_spec(text@) == index_of(st));
    proof {
        reveal_strlit("");
        assert(""@ =~= Seq::<char>::empty());
    }
    let root = &reader.root;
    match first_unknown(root, &root_keys_list()) {
        Some(k) => {
            return Err(ArchiveFailure::UnknownField { scope: owned(""), field: k });
        },
        None => {},
    }
    let schema = require_integer(root, "", "schema")?;
    if schema != ARCHIVE_SCHEMA {
        return Err(ArchiveFailure::UnsupportedSchema { schema });
    }
    let export_source_main = require_nonempty(root, "", "export_source_main")?;
    let export_source_tree = require_nonempty(root, "", "export_source_tree")?;
    let export_method = require_nonempty(root, "", "export_method")?;
    let provenance = require_nonempty(root, "", "provenance")?;
    if reader.entries.len() == 0 {
        return Err(ArchiveFailure::Empty);
    }
    let built = build_all(&reader.entries)?;
    reject_duplicates(&built)?;
    require_canonical_paths(&built)?;
    let entries = sort_entries(built);
    Ok(
        ArchiveIndex {
            schema,
            export_source_main,
            export_source_tree,
            export_method,
            provenance,
            entries,
        },
    )
}


// ---------------------------------------------------------------------------
// Preserved measures, coverage and integrity verification.
// ---------------------------------------------------------------------------

/// The historical measures as the preserved FROZEN metadata declares them.
#[derive(Debug, Clone, PartialEq, Eq)]
pub struct FrozenMeasures {
    pub regions: u64,
    pub length: u64,
    pub fnv1a64: String,
}

pub struct FrozenView {
    pub regions: u64,
    pub length: u64,
    pub fnv1a64: Seq<char>,
}

pub open spec fn frozen_view(f: FrozenMeasures) -> FrozenView {
    FrozenView { regions: f.regions, length: f.length, fnv1a64: f.fnv1a64@ }
}

pub open spec fn unquoted_start(s: Seq<char>) -> Seq<char>
    decreases s.len(),
{
    if s.len() > 0 && s[0] == '"' {
        unquoted_start(s.drop_first())
    } else {
        s
    }
}

pub open spec fn unquoted_end(s: Seq<char>) -> Seq<char>
    decreases s.len(),
{
    if s.len() > 0 && s.last() == '"' {
        unquoted_end(s.drop_last())
    } else {
        s
    }
}

/// A text without the quotes at either end.
pub open spec fn unquoted(s: Seq<char>) -> Seq<char> {
    unquoted_end(unquoted_start(s))
}

fn unquote(v: &Vec<char>) -> (r: Vec<char>)
    ensures
        r@ == unquoted(v@),
{
    let mut a: usize = 0;
    assert(v@.subrange(0, v@.len() as int) =~= v@);
    while a < v.len() && v[a] == '"'
        invariant
            a <= v@.len(),
            unquoted_start(v@) == unquoted_start(v@.subrange(a as int, v@.len() as int)),
        decreases v.len() - a,
    {
        assert(v@.subrange(a as int, v@.len() as int).drop_first() =~= v@.subrange(a + 1, v@.len() as int));
        a = a + 1;
    }
    let mut b: usize = v.len();
    assert(unquoted_start(v@) == v@.subrange(a as int, v@.len() as int));
    while b > a && v[b - 1] == '"'
        invariant
            a <= b <= v@.len(),
            unquoted(v@) == unquoted_end(v@.subrange(a as int, b as int)),
        decreases b - a,
    {
        assert(v@.subrange(a as int, b as int).drop_last() =~= v@.subrange(a as int, b - 1));
        b = b - 1;
    }
    crate::text::slice_vec(v, a, b)
}

/// What the `[measures]` lines read so far declare.
pub struct MeasuresRead {
    pub inside: bool,
    pub regions: Option<u64>,
    pub length: Option<u64>,
    pub fnv1a64: Option<Seq<char>>,
}

/// One line of a preserved metadata file: only `[measures]` is read, a
/// later declaration of a key replaces an earlier one.
pub open spec fn measures_line(st: MeasuresRead, raw: Seq<char>) -> Result<MeasuresRead, Seq<char>> {
    let line = trim(raw);
    if line.len() > 0 && line[0] == '[' {
        Ok(MeasuresRead { inside: line == "[measures]"@, ..st })
    } else if !st.inside || line.len() == 0 || line[0] == '#' {
        Ok(st)
    } else {
        match first_index(line, '=') {
            None => Ok(st),
            Some(eq) => {
                let key = trim(line.take(eq));
                let value = unquoted(trim(line.skip(eq + 1)));
                if key == "regions"@ {
                    match u64_text(value) {
                        Some(n) => Ok(MeasuresRead { regions: Some(n), ..st }),
                        None => Err("regions não é um inteiro: '"@ + value + "'"@),
                    }
                } else if key == "length"@ {
                    match u64_text(value) {
                        Some(n) => Ok(MeasuresRead { length: Some(n), ..st }),
                        None => Err("length não é um inteiro: '"@ + value + "'"@),
                    }
                } else if key == "fnv1a64"@ {
                    Ok(MeasuresRead { fnv1a64: Some(value), ..st })
                } else {
                    Ok(st)
                }
            },
        }
    }
}

pub open spec fn measures_lines(ls: Seq<Seq<char>>, i: int, st: MeasuresRead) -> Result<MeasuresRead, Seq<char>>
    decreases ls.len() - i,
{
    if i < 0 || i >= ls.len() {
        Ok(st)
    } else {
        match measures_line(st, ls[i]) {
            Err(m) => Err(m),
            Ok(next) => measures_lines(ls, i + 1, next),
        }
    }
}

/// The `[measures]` of a preserved metadata text.
pub open spec fn frozen_spec(text: Seq<char>) -> Result<FrozenView, Seq<char>> {
    match measures_lines(lines(text), 0, MeasuresRead { inside: false, regions: None, length: None, fnv1a64: None }) {
        Err(m) => Err(m),
        Ok(st) => match st.regions {
            None => Err("[measures] não declara regions"@),
            Some(r) => match st.length {
                None => Err("[measures] não declara length"@),
                Some(l) => match st.fnv1a64 {
                    None => Err("[measures] não declara fnv1a64"@),
                    Some(f) => Ok(FrozenView { regions: r, length: l, fnv1a64: f }),
                },
            },
        },
    }
}

fn measures_line_exec(
    raw: &Vec<char>,
    inside: &mut bool,
    regions: &mut Option<u64>,
    length: &mut Option<u64>,
    fnv: &mut Option<Vec<char>>,
) -> (r: Result<(), Vec<char>>)
    ensures
        ({
            let before = MeasuresRead {
                inside: *old(inside),
                regions: *old(regions),
                length: *old(length),
                fnv1a64: match *old(fnv) {
                    Some(v) => Some(v@),
                    None => None,
                },
            };
            let after = MeasuresRead {
                inside: *final(inside),
                regions: *final(regions),
                length: *final(length),
                fnv1a64: match *final(fnv) {
                    Some(v) => Some(v@),
                    None => None,
                },
            };
            match measures_line(before, raw@) {
                Ok(st) => r is Ok && after == st,
                Err(m) => r matches Err(e) && e@ == m,
            }
        }),
{
    let line = crate::text::trimmed(raw, 0, raw.len());
    assert(raw@.subrange(0, raw@.len() as int) =~= raw@);
    let len = line.len();
    if len > 0 && line[0] == '[' {
        *inside = crate::text::vec_eq(&line, &chars_of("[measures]"));
        return Ok(());
    }
    if !*inside || len == 0 || line[0] == '#' {
        return Ok(());
    }
    let mut eq: usize = 0;
    while eq < len && line[eq] != '='
        invariant
            eq <= len,
            len == line@.len(),
            forall|j: int| 0 <= j < eq ==> line@[j] != '=',
        decreases len - eq,
    {
        eq = eq + 1;
    }
    if eq == len {
        proof {
            assert(!line@.contains('=')) by {
                if line@.contains('=') {
                    let w = choose|i: int| 0 <= i < line@.len() && line@[i] == '=';
                    assert(line@[w] != '=');
                }
            }
        }
        return Ok(());
    }
    proof {
        assert(line@.contains('='));
        let w = choose|i: int|
            0 <= i < line@.len() && line@[i] == '=' && forall|j: int| 0 <= j < i ==> line@[j] != '=';
        if w < eq {
            assert(line@[w] == '=');
        }
        if eq < w {
            assert(line@[eq as int] != '=');
        }
        assert(first_index(line@, '=') == Some(eq as int));
    }
    let key = crate::text::trimmed(&line, 0, eq);
    assert(line@.subrange(0, eq as int) =~= line@.take(eq as int));
    let raw_value = crate::text::trimmed(&line, eq + 1, len);
    assert(line@.subrange(eq + 1, len as int) =~= line@.skip(eq + 1));
    let value = unquote(&raw_value);
    if crate::text::vec_eq(&key, &chars_of("regions")) {
        match parse_u64(&value) {
            Some(n) => {
                *regions = Some(n);
                Ok(())
            },
            None => {
                let mut m: Vec<char> = Vec::new();
                push_str_chars(&mut m, "regions não é um inteiro: '");
                push_all(&mut m, &value);
                push_str_chars(&mut m, "'");
                Err(m)
            },
        }
    } else if crate::text::vec_eq(&key, &chars_of("length")) {
        match parse_u64(&value) {
            Some(n) => {
                *length = Some(n);
                Ok(())
            },
            None => {
                let mut m: Vec<char> = Vec::new();
                push_str_chars(&mut m, "length não é um inteiro: '");
                push_all(&mut m, &value);
                push_str_chars(&mut m, "'");
                Err(m)
            },
        }
    } else if crate::text::vec_eq(&key, &chars_of("fnv1a64")) {
        *fnv = Some(value);
        Ok(())
    } else {
        Ok(())
    }
}

/// Reads `[measures]` of a preserved historical metadata text. The other
/// sections describe a retired mechanism and are not read.
pub fn frozen_measures(text: &str) -> (r: Result<FrozenMeasures, String>)
    ensures
        match frozen_spec(text@) {
            Ok(v) => r matches Ok(f) && frozen_view(f) == v,
            Err(m) => r matches Err(e) && e@ == m,
        },
{
    let chars = chars_of(text);
    let ls = crate::text::split_lines(&chars);
    let ghost all = lines(text@);
    let mut inside = false;
    let mut regions: Option<u64> = None;
    let mut length: Option<u64> = None;
    let mut fnv: Option<Vec<char>> = None;
    let mut i: usize = 0;
    while i < ls.len()
        invariant
            i <= ls@.len(),
            all == lines(text@),
            ls@.len() == all.len(),
            forall|k: int| 0 <= k < ls@.len() ==> #[trigger] ls@[k]@ == all[k],
            measures_lines(all, 0, MeasuresRead { inside: false, regions: None, length: None, fnv1a64: None })
                == measures_lines(
                all,
                i as int,
                MeasuresRead {
                    inside,
                    regions,
                    length,
                    fnv1a64: match fnv {
                        Some(v) => Some(v@),
                        None => None,
                    },
                },
            ),
        decreases ls.len() - i,
    {
        assert(ls@[i as int]@ == all[i as int]);
        match measures_line_exec(&ls[i], &mut inside, &mut regions, &mut length, &mut fnv) {
            Ok(()) => {},
            Err(m) => {
                return Err(string_from(&m));
            },
        }
        i = i + 1;
    }
    let r = match regions {
        Some(r) => r,
        None => {
            return Err(owned("[measures] não declara regions"));
        },
    };
    let l = match length {
        Some(l) => l,
        None => {
            return Err(owned("[measures] não declara length"));
        },
    };
    let f = match fnv {
        Some(f) => f,
        None => {
            return Err(owned("[measures] não declara fnv1a64"));
        },
    };
    Ok(FrozenMeasures { regions: r, length: l, fnv1a64: string_from(&f) })
}

/// Records of a stable projection: one per line ended by `\n`.
pub open spec fn newline_count(b: Seq<u8>) -> nat
    decreases b.len(),
{
    if b.len() == 0 {
        0
    } else {
        newline_count(b.drop_last()) + if b.last() == 10u8 {
            1nat
        } else {
            0nat
        }
    }
}

fn record_count(bytes: &Vec<u8>) -> (n: u64)
    ensures
        n == newline_count(bytes@),
{
    let mut n: u64 = 0;
    let mut i: usize = 0;
    while i < bytes.len()
        invariant
            i <= bytes@.len(),
            n == newline_count(bytes@.take(i as int)),
            n <= i,
        decreases bytes.len() - i,
    {
        assert(bytes@.take(i + 1).drop_last() =~= bytes@.take(i as int));
        if bytes[i] == 10u8 {
            n = n + 1;
        }
        i = i + 1;
    }
    assert(bytes@.take(i as int) =~= bytes@);
    n
}


/// What reading the preserved metadata of an entry gave: the SHA-256 of its
/// bytes, and its text or the message of the UTF-8 decoder.
#[derive(Debug)]
pub struct MetadataRead {
    pub sha256: String,
    pub text: Result<String, String>,
}

/// What reading the payload of an entry gave: its bytes and their SHA-256.
#[derive(Debug)]
pub struct PayloadRead {
    pub bytes: Vec<u8>,
    pub sha256: String,
}

/// What reading the two files of an entry gave; a failed read carries the
/// message of the system.
#[derive(Debug)]
pub struct EntryRead {
    pub metadata: Result<MetadataRead, String>,
    pub payload: Result<PayloadRead, String>,
}

pub enum OutcomeView {
    Intact,
    Missing { path: Seq<char>, msg: Seq<char> },
    Altered(Seq<DivergenceView>),
}

pub open spec fn outcome_view(o: EntryOutcome) -> OutcomeView {
    match o {
        EntryOutcome::Intact => OutcomeView::Intact,
        EntryOutcome::Missing { path, msg } => OutcomeView::Missing { path: path@, msg: msg@ },
        EntryOutcome::Altered(ds) => OutcomeView::Altered(divergences_view(ds@)),
    }
}

pub open spec fn div(measure: Seq<char>, expected: Seq<char>, observed: Seq<char>) -> DivergenceView {
    DivergenceView { measure, expected, observed }
}

pub open spec fn when(c: bool, d: DivergenceView) -> Seq<DivergenceView> {
    if c {
        seq![d]
    } else {
        Seq::empty()
    }
}

/// The preserved measures that the metadata text declares, or why they
/// could not be read.
pub open spec fn frozen_of(m: MetadataRead) -> Result<FrozenView, Seq<char>> {
    match m.text {
        Ok(t) => frozen_spec(t@),
        Err(e) => Err(e@),
    }
}

/// The index still says what the frozen TOML always said.
pub open spec fn frozen_divergences(e: EntryView, f: Result<FrozenView, Seq<char>>) -> Seq<DivergenceView> {
    match f {
        Ok(v) => when(
            v.regions != e.regions,
            div("frozen_regions"@, decimal(v.regions as nat), decimal(e.regions as nat)),
        ) + when(v.length != e.length, div("frozen_length"@, decimal(v.length as nat), decimal(e.length as nat)))
            + when(v.fnv1a64 != e.fnv1a64, div("frozen_fnv1a64"@, v.fnv1a64, e.fnv1a64)),
        Err(m) => seq![div("frozen_measures"@, "regions, length e fnv1a64 preservados"@, m)],
    }
}

/// The payload measured against the preserved measures, or against those
/// of the index when the metadata could not be read, plus its SHA-256.
pub open spec fn payload_divergences(e: EntryView, f: Result<FrozenView, Seq<char>>, p: PayloadRead) -> Seq<
    DivergenceView,
> {
    let (regions, length, fnv) = match f {
        Ok(v) => (v.regions, v.length, v.fnv1a64),
        Err(_) => (e.regions, e.length, e.fnv1a64),
    };
    let observed_fnv = fnv_canonical(fnv_fold(p.bytes@));
    when(p.bytes@.len() != length, div("length"@, decimal(length as nat), decimal(p.bytes@.len())))
        + when(newline_count(p.bytes@) != regions, div("regions"@, decimal(regions as nat), decimal(newline_count(p.bytes@))))
        + when(observed_fnv != fnv, div("fnv1a64"@, fnv, observed_fnv)) + when(
        p.sha256@ != e.sha256,
        div("sha256"@, e.sha256, p.sha256@),
    )
}

/// The integrity of one entry: the preserved metadata first, which says
/// what the measures are, then the payload measured against them.
pub open spec fn entry_outcome(e: EntryView, r: EntryRead) -> OutcomeView {
    match r.metadata {
        Err(m) => OutcomeView::Missing { path: e.metadata_path, msg: m@ },
        Ok(meta) => match r.payload {
            Err(m) => OutcomeView::Missing { path: e.payload_path, msg: m@ },
            Ok(p) => {
                let f = frozen_of(meta);
                let all = when(meta.sha256@ != e.metadata_sha256, div("metadata_sha256"@, e.metadata_sha256, meta.sha256@))
                    + frozen_divergences(e, f) + payload_divergences(e, f, p);
                if all.len() == 0 {
                    OutcomeView::Intact
                } else {
                    OutcomeView::Altered(all)
                }
            },
        },
    }
}

fn divergence(measure: &'static str, expected: Vec<char>, observed: Vec<char>) -> (d: Divergence)
    ensures
        divergence_view(d) == div(measure@, expected@, observed@),
{
    Divergence { measure, expected: string_from(&expected), observed: string_from(&observed) }
}

fn decimal_chars(n: u64) -> (v: Vec<char>)
    ensures
        v@ == decimal(n as nat),
{
    let mut v: Vec<char> = Vec::new();
    push_decimal(&mut v, n);
    assert(v@ =~= decimal(n as nat));
    v
}

fn push_when(ds: &mut Vec<Divergence>, c: bool, d: Divergence)
    ensures
        divergences_view(final(ds)@) == divergences_view(old(ds)@) + when(c, divergence_view(d)),
{
    let ghost before = divergences_view(ds@);
    if c {
        ds.push(d);
        assert(divergences_view(ds@) =~= before + seq![divergence_view(d)]);
    } else {
        assert(divergences_view(ds@) =~= before + Seq::<DivergenceView>::empty());
    }
}

fn frozen_checks(ds: &mut Vec<Divergence>, entry: &ArchiveEntry, frozen: &Result<FrozenMeasures, String>)
    ensures
        divergences_view(final(ds)@) == divergences_view(old(ds)@) + frozen_divergences(
            entry_view(*entry),
            match frozen {
                Ok(f) => Ok(frozen_view(*f)),
                Err(m) => Err(m@),
            },
        ),
{
    let ghost d0 = divergences_view(ds@);
    match frozen {
        Ok(fr) => {
            push_when(
                ds,
                fr.regions != entry.regions,
                divergence("frozen_regions", decimal_chars(fr.regions), decimal_chars(entry.regions)),
            );
            push_when(
                ds,
                fr.length != entry.length,
                divergence("frozen_length", decimal_chars(fr.length), decimal_chars(entry.length)),
            );
            let fd = !crate::text::str_eq(fr.fnv1a64.as_str(), entry.fnv1a64.as_str());
            push_when(
                ds,
                fd,
                divergence("frozen_fnv1a64", chars_of(fr.fnv1a64.as_str()), chars_of(entry.fnv1a64.as_str())),
            );
            assert(divergences_view(ds@) =~= d0 + frozen_divergences(entry_view(*entry), Ok(frozen_view(*fr))));
        },
        Err(m) => {
            push_when(
                ds,
                true,
                divergence("frozen_measures", chars_of("regions, length e fnv1a64 preservados"), chars_of(m.as_str())),
            );
            assert(divergences_view(ds@) =~= d0 + frozen_divergences(entry_view(*entry), Err(m@)));
        },
    }
}

fn payload_checks(
    ds: &mut Vec<Divergence>,
    entry: &ArchiveEntry,
    frozen: &Result<FrozenMeasures, String>,
    payload: &PayloadRead,
)
    ensures
        divergences_view(final(ds)@) == divergences_view(old(ds)@) + payload_divergences(
            entry_view(*entry),
            match frozen {
                Ok(f) => Ok(frozen_view(*f)),
                Err(m) => Err(m@),
            },
            *payload,
        ),
{
    let ghost d1 = divergences_view(ds@);
    let (regions, length, fnv) = match frozen {
        Ok(fr) => (fr.regions, fr.length, chars_of(fr.fnv1a64.as_str())),
        Err(_) => (entry.regions, entry.length, chars_of(entry.fnv1a64.as_str())),
    };
    let observed_length = payload.bytes.len() as u64;
    push_when(
        ds,
        observed_length != length,
        divergence("length", decimal_chars(length), decimal_chars(observed_length)),
    );
    let observed_regions = record_count(&payload.bytes);
    push_when(
        ds,
        observed_regions != regions,
        divergence("regions", decimal_chars(regions), decimal_chars(observed_regions)),
    );
    let observed_fnv = chars_of(fnv1a64_canonical(payload.bytes.as_slice()).as_str());
    let fnv_differs = !crate::text::vec_eq(&observed_fnv, &fnv);
    push_when(ds, fnv_differs, divergence("fnv1a64", fnv, observed_fnv));
    let sha_differs = !crate::text::str_eq(payload.sha256.as_str(), entry.sha256.as_str());
    push_when(
        ds,
        sha_differs,
        divergence("sha256", chars_of(entry.sha256.as_str()), chars_of(payload.sha256.as_str())),
    );
    assert(divergences_view(ds@) =~= d1 + payload_divergences(
        entry_view(*entry),
        match frozen {
            Ok(f) => Ok(frozen_view(*f)),
            Err(m) => Err(m@),
        },
        *payload,
    ));
}

fn entry_outcome_exec(entry: &ArchiveEntry, read: &EntryRead) -> (o: EntryOutcome)
    ensures
        outcome_view(o) == entry_outcome(entry_view(*entry), *read),
{
    let meta = match &read.metadata {
        Err(m) => {
            return EntryOutcome::Missing { path: entry.metadata_path.clone(), msg: m.clone() };
        },
        Ok(meta) => meta,
    };
    let payload = match &read.payload {
        Err(m) => {
            return EntryOutcome::Missing { path: entry.payload_path.clone(), msg: m.clone() };
        },
        Ok(p) => p,
    };
    let mut ds: Vec<Divergence> = Vec::new();
    assert(divergences_view(ds@) =~= Seq::<DivergenceView>::empty());
    let differs = !crate::text::str_eq(meta.sha256.as_str(), entry.metadata_sha256.as_str());
    push_when(
        &mut ds,
        differs,
        divergence("metadata_sha256", chars_of(entry.metadata_sha256.as_str()), chars_of(meta.sha256.as_str())),
    );
    let frozen = match &meta.text {
        Ok(t) => frozen_measures(t.as_str()),
        Err(m) => Err(m.clone()),
    };
    assert(frozen_of(*meta) == match frozen {
        Ok(f) => Ok(frozen_view(f)),
        Err(m) => Err(m@),
    });
    frozen_checks(&mut ds, entry, &frozen);
    payload_checks(&mut ds, entry, &frozen, payload);
    if ds.len() == 0 {
        EntryOutcome::Intact
    } else {
        EntryOutcome::Altered(ds)
    }
}

/// Verifies one entry against what reading its files gave.
pub fn verify_entry(entry: &ArchiveEntry, read: &EntryRead) -> (r: EntryReport)
    ensures
        r.id@ == entry.id@,
        r.payload_path@ == entry.payload_path@,
        r.metadata_path@ == entry.metadata_path@,
        r.regions == entry.regions,
        r.length == entry.length,
        r.fnv1a64@ == entry.fnv1a64@,
        r.sha256@ == entry.sha256@,
        outcome_view(r.outcome) == entry_outcome(entry_view(*entry), *read),
{
    let outcome = entry_outcome_exec(entry, read);
    EntryReport {
        id: entry.id.clone(),
        payload_path: entry.payload_path.clone(),
        metadata_path: entry.metadata_path.clone(),
        regions: entry.regions,
        length: entry.length,
        fnv1a64: entry.fnv1a64.clone(),
        sha256: entry.sha256.clone(),
        outcome,
    }
}

/// The report of an entry verified against what reading its files gave.
pub open spec fn reports_entry(r: EntryReport, e: ArchiveEntry, read: EntryRead) -> bool {
    &&& r.id@ == e.id@
    &&& r.payload_path@ == e.payload_path@
    &&& r.metadata_path@ == e.metadata_path@
    &&& r.regions == e.regions
    &&& r.length == e.length
    &&& r.fnv1a64@ == e.fnv1a64@
    &&& r.sha256@ == e.sha256@
    &&& outcome_view(r.outcome) == entry_outcome(entry_view(e), read)
}

/// Verifies the whole archive, given what reading the files of each entry
/// gave, in the order of the entries. Read only.
pub fn verify(index: &ArchiveIndex, reads: &Vec<EntryRead>) -> (v: ArchiveVerification)
    requires
        reads@.len() == index.entries@.len(),
    ensures
        v.index_path@ == INDEX_PATH@,
        v.export_source_main@ == index.export_source_main@,
        v.export_source_tree@ == index.export_source_tree@,
        v.entries@.len() == index.entries@.len(),
        forall|k: int|
            0 <= k < v.entries@.len() ==> reports_entry(#[trigger] v.entries@[k], index.entries@[k], reads@[k]),
{
    let mut entries: Vec<EntryReport> = Vec::new();
    let mut i: usize = 0;
    while i < index.entries.len()
        invariant
            i <= index.entries@.len(),
            reads@.len() == index.entries@.len(),
            entries@.len() == i,
            forall|k: int| 0 <= k < i ==> reports_entry(#[trigger] entries@[k], index.entries@[k], reads@[k]),
        decreases index.entries.len() - i,
    {
        let r = verify_entry(&index.entries[i], &reads[i]);
        entries.push(r);
        i = i + 1;
    }
    ArchiveVerification {
        index_path: owned(INDEX_PATH),
        export_source_main: index.export_source_main.clone(),
        export_source_tree: index.export_source_tree.clone(),
        entries,
    }
}

/// One entry of the directory of the preserved metadata.
#[derive(Debug, Clone, PartialEq, Eq)]
pub enum MetadataListing {
    /// A nested directory: what is left of retired mechanisms, never read.
    Directory,
    /// A file, by its name (empty when the name is not UTF-8).
    File(String),
}

/// The identifier a file name declares: its stem before `.toml`, when that
/// is not empty.
pub open spec fn state_id(name: Seq<char>) -> Option<Seq<char>> {
    if has_suffix(name, METADATA_SUFFIX@) && name.len() > METADATA_SUFFIX@.len() {
        Some(name.take(name.len() - METADATA_SUFFIX@.len()))
    } else {
        None
    }
}

/// The identifiers of the listing from `i` on, or the first foreign file.
pub open spec fn states_from(ls: Seq<MetadataListing>, i: int) -> Result<Seq<Seq<char>>, ArchiveFailureView>
    decreases ls.len() - i,
{
    if i < 0 || i >= ls.len() {
        Ok(Seq::empty())
    } else {
        match ls[i] {
            MetadataListing::Directory => states_from(ls, i + 1),
            MetadataListing::File(name) => match state_id(name@) {
                None => Err(ArchiveFailureView::ForeignMetadata { path: METADATA_DIR@ + "/"@ + name@ }),
                Some(id) => match states_from(ls, i + 1) {
                    Err(e) => Err(e),
                    Ok(rest) => Ok(seq![id] + rest),
                },
            },
        }
    }
}

fn state_id_exec(name: &String) -> (r: Option<String>)
    ensures
        match state_id(name@) {
            Some(id) => r matches Some(x) && x@ == id,
            None => r is None,
        },
{
    let c = chars_of(name.as_str());
    let suffix = chars_of(METADATA_SUFFIX);
    proof {
        reveal_strlit(".toml");
    }
    let n = c.len();
    if n > 5 && crate::text::matches_at(&c, n - 5, &suffix) {
        assert(c@.subrange(n - 5, n as int) =~= suffix@);
        Some(string_from(&crate::text::slice_vec(&c, 0, n - 5)))
    } else {
        proof {
            if has_suffix(c@, METADATA_SUFFIX@) && n > 5 {
                assert(c@.subrange(n - 5, n as int) == suffix@);
            }
        }
        None
    }
}

/// The accepted historical states: strictly the `.toml` files at the root
/// of the metadata authority, in the order of their identifiers. A nested
/// directory is skipped; any other file is refused, since ignoring it would
/// let a state leave history by a change of extension.
pub fn preserved_states(listing: &Vec<MetadataListing>) -> (r: Result<Vec<String>, ArchiveFailure>)
    ensures
        match states_from(listing@, 0) {
            Err(f) => r matches Err(e) && archive_failure_view(e) == f,
            Ok(ids) => r matches Ok(v) && string_rows(v@) == ids.sort_by(crate::text::text_le()),
        },
{
    let mut ids: Vec<Vec<char>> = Vec::new();
    let mut i: usize = 0;
    while i < listing.len()
        invariant
            i <= listing@.len(),
            states_from(listing@, 0) == match states_from(listing@, i as int) {
                Ok(rest) => Ok(crate::text::rows(ids@) + rest),
                Err(e) => Err(e),
            },
        decreases listing.len() - i,
    {
        match &listing[i] {
            MetadataListing::Directory => {},
            MetadataListing::File(name) => {
                match state_id_exec(name) {
                    None => {
                        let mut p: Vec<char> = Vec::new();
                        push_str_chars(&mut p, METADATA_DIR);
                        push_str_chars(&mut p, "/");
                        push_str_chars(&mut p, name.as_str());
                        return Err(ArchiveFailure::ForeignMetadata { path: string_from(&p) });
                    },
                    Some(id) => {
                        let ghost before = crate::text::rows(ids@);
                        ids.push(chars_of(id.as_str()));
                        proof {
                            assert(crate::text::rows(ids@) =~= before.push(id@));
                            match states_from(listing@, i + 1) {
                                Ok(rest) => {
                                    assert(before + (seq![id@] + rest) =~= crate::text::rows(ids@) + rest);
                                },
                                Err(_) => {},
                            }
                        }
                    },
                }
            },
        }
        i = i + 1;
    }
    assert(states_from(listing@, i as int) == Ok::<Seq<Seq<char>>, ArchiveFailureView>(Seq::empty()));
    assert(crate::text::rows(ids@) + Seq::<Seq<char>>::empty() =~= crate::text::rows(ids@));
    let sorted = crate::text::sort_texts(&ids);
    let mut out: Vec<String> = Vec::new();
    let mut k: usize = 0;
    while k < sorted.len()
        invariant
            k <= sorted@.len(),
            out@.len() == k,
            forall|j: int| 0 <= j < k ==> #[trigger] out@[j]@ == sorted@[j]@,
        decreases sorted.len() - k,
    {
        out.push(string_from(&sorted[k]));
        k = k + 1;
    }
    assert(string_rows(out@) =~= crate::text::rows(sorted@));
    Ok(out)
}

/// Each accepted state has an entry, and each entry names an accepted
/// state; otherwise the first state without an entry, or else the first
/// entry without a state.
pub open spec fn coverage(archived: Seq<Seq<char>>, preserved: Seq<Seq<char>>) -> Result<(), ArchiveFailureView> {
    if exists|i: int| 0 <= i < preserved.len() && !archived.contains(#[trigger] preserved[i]) {
        let i = choose|i: int|
            0 <= i < preserved.len() && !archived.contains(#[trigger] preserved[i]) && forall|j: int|
                0 <= j < i ==> archived.contains(#[trigger] preserved[j]);
        Err(ArchiveFailureView::MissingArchivedState { id: preserved[i] })
    } else if exists|i: int| 0 <= i < archived.len() && !preserved.contains(#[trigger] archived[i]) {
        let i = choose|i: int|
            0 <= i < archived.len() && !preserved.contains(#[trigger] archived[i]) && forall|j: int|
                0 <= j < i ==> preserved.contains(#[trigger] archived[j]);
        Err(ArchiveFailureView::UnknownArchivedState { id: archived[i] })
    } else {
        Ok(())
    }
}

fn listed(v: &Vec<Vec<char>>, x: &Vec<char>) -> (b: bool)
    ensures
        b == crate::text::rows(v@).contains(x@),
{
    let mut i: usize = 0;
    while i < v.len()
        invariant
            i <= v@.len(),
            forall|j: int| 0 <= j < i ==> crate::text::rows(v@)[j] != x@,
        decreases v.len() - i,
    {
        if crate::text::vec_eq(&v[i], x) {
            assert(crate::text::rows(v@)[i as int] == x@);
            return true;
        }
        i = i + 1;
    }
    assert(!crate::text::rows(v@).contains(x@)) by {
        if crate::text::rows(v@).contains(x@) {
            let j = choose|j: int| 0 <= j < crate::text::rows(v@).len() && crate::text::rows(v@)[j] == x@;
            assert(crate::text::rows(v@)[j] != x@);
        }
    }
    false
}

fn first_absent(xs: &Vec<Vec<char>>, ys: &Vec<Vec<char>>) -> (r: Option<usize>)
    ensures
        match r {
            Some(i) => i < xs@.len() && !crate::text::rows(ys@).contains(xs@[i as int]@) && forall|j: int|
                0 <= j < i ==> crate::text::rows(ys@).contains(#[trigger] crate::text::rows(xs@)[j]),
            None => forall|j: int|
                0 <= j < xs@.len() ==> crate::text::rows(ys@).contains(#[trigger] crate::text::rows(xs@)[j]),
        },
{
    let mut i: usize = 0;
    while i < xs.len()
        invariant
            i <= xs@.len(),
            forall|j: int| 0 <= j < i ==> crate::text::rows(ys@).contains(#[trigger] crate::text::rows(xs@)[j]),
        decreases xs.len() - i,
    {
        if !listed(ys, &xs[i]) {
            return Some(i);
        }
        assert(crate::text::rows(xs@)[i as int] == xs@[i as int]@);
        i = i + 1;
    }
    None
}

/// Requires a one-to-one correspondence between accepted history and the
/// index.
pub fn require_complete_coverage(index: &ArchiveIndex, preserved: &Vec<String>) -> (r: Result<(), ArchiveFailure>)
    ensures
        match coverage(entries_view(index.entries@).map_values(entry_key()), string_rows(preserved@)) {
            Ok(_) => r is Ok,
            Err(f) => r matches Err(e) && archive_failure_view(e) == f,
        },
{
    let ghost archived_v = entries_view(index.entries@).map_values(entry_key());
    let ghost preserved_v = string_rows(preserved@);
    let mut archived: Vec<Vec<char>> = Vec::new();
    let mut i: usize = 0;
    while i < index.entries.len()
        invariant
            i <= index.entries@.len(),
            archived@.len() == i,
            forall|j: int| 0 <= j < i ==> #[trigger] archived@[j]@ == index.entries@[j].id@,
        decreases index.entries.len() - i,
    {
        archived.push(chars_of(index.entries[i].id.as_str()));
        i = i + 1;
    }
    assert(crate::text::rows(archived@) =~= archived_v);
    let mut accepted: Vec<Vec<char>> = Vec::new();
    let mut k: usize = 0;
    while k < preserved.len()
        invariant
            k <= preserved@.len(),
            accepted@.len() == k,
            forall|j: int| 0 <= j < k ==> #[trigger] accepted@[j]@ == preserved@[j]@,
        decreases preserved.len() - k,
    {
        accepted.push(chars_of(preserved[k].as_str()));
        k = k + 1;
    }
    assert(crate::text::rows(accepted@) =~= preserved_v);
    match first_absent(&accepted, &archived) {
        Some(i) => {
            proof {
                let c = choose|c: int|
                    0 <= c < preserved_v.len() && !archived_v.contains(#[trigger] preserved_v[c]) && forall|j: int|
                        0 <= j < c ==> archived_v.contains(#[trigger] preserved_v[j]);
                assert(0 <= i < preserved_v.len() && !archived_v.contains(preserved_v[i as int]));
                if c < i {
                    assert(archived_v.contains(preserved_v[c]));
                }
                if i < c {
                    assert(archived_v.contains(preserved_v[i as int]));
                }
            }
            return Err(ArchiveFailure::MissingArchivedState { id: preserved[i].clone() });
        },
        None => {},
    }
    match first_absent(&archived, &accepted) {
        Some(i) => {
            proof {
                assert(!(exists|j: int| 0 <= j < preserved_v.len() && !archived_v.contains(#[trigger] preserved_v[j])));
                let c = choose|c: int|
                    0 <= c < archived_v.len() && !preserved_v.contains(#[trigger] archived_v[c]) && forall|j: int|
                        0 <= j < c ==> preserved_v.contains(#[trigger] archived_v[j]);
                assert(0 <= i < archived_v.len() && !preserved_v.contains(archived_v[i as int]));
                if c < i {
                    assert(preserved_v.contains(archived_v[c]));
                }
                if i < c {
                    assert(preserved_v.contains(archived_v[i as int]));
                }
            }
            return Err(ArchiveFailure::UnknownArchivedState { id: index.entries[i].id.clone() });
        },
        None => {},
    }
    Ok(())
}


/// What loading the archive gives, from what reading the index and listing
/// the metadata authority gave: the index, once it is proved to cover the
/// accepted history one to one.
pub open spec fn loaded(
    index_text: Result<String, String>,
    listing: Result<Vec<MetadataListing>, String>,
) -> Result<IndexView, ArchiveFailureView> {
    match index_text {
        Err(m) => Err(ArchiveFailureView::Unreadable { path: INDEX_PATH@, msg: m@ }),
        Ok(t) => match index_spec(t@) {
            Err(f) => Err(f),
            Ok(iv) => match listing {
                Err(m) => Err(ArchiveFailureView::Unreadable { path: METADATA_DIR@, msg: m@ }),
                Ok(l) => match states_from(l@, 0) {
                    Err(f) => Err(f),
                    Ok(ids) => match coverage(iv.entries.map_values(entry_key()), ids.sort_by(crate::text::text_le())) {
                        Err(f) => Err(f),
                        Ok(_) => Ok(iv),
                    },
                },
            },
        },
    }
}

/// Loads the index: reads it, then proves its coverage against the
/// preserved metadata before any consumer reads `entries`.
pub fn load(
    index_text: &Result<String, String>,
    listing: &Result<Vec<MetadataListing>, String>,
) -> (r: Result<ArchiveIndex, ArchiveFailure>)
    ensures
        match loaded(*index_text, *listing) {
            Ok(v) => r matches Ok(i) && index_view(i) == v,
            Err(f) => r matches Err(e) && archive_failure_view(e) == f,
        },
{
    let text = match index_text {
        Err(m) => {
            return Err(ArchiveFailure::Unreadable { path: owned(INDEX_PATH), msg: m.clone() });
        },
        Ok(t) => t,
    };
    let index = parse_index(text.as_str())?;
    let entries = match listing {
        Err(m) => {
            return Err(ArchiveFailure::Unreadable { path: owned(METADATA_DIR), msg: m.clone() });
        },
        Ok(l) => l,
    };
    let ids = preserved_states(entries)?;
    require_complete_coverage(&index, &ids)?;
    Ok(index)
}

} // verus!
