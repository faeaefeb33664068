//! Historical snapshots of the projections of the code navigation catalogue.
//!
//! A snapshot freezes three measures of a stable projection of regions (how
//! many regions, the byte length of the projection, its FNV-1a 64 hash), its
//! optional predecessor and the reconstruction rules that recompose, from the
//! current catalogue, the historical state that produced those measures.
//!
//! Everything here is pure: nothing reads or writes files. `DRIFT` is only
//! declared after a valid reconstruction; every other problem is a harness
//! failure and is never reported as drift.
pub mod parser;
pub mod render;
pub mod roundtrip;
pub mod rebuild;
pub mod report;
pub mod message;
pub mod toml;

pub use parser::{parse, validate_rules};
pub use rebuild::{
    apply_rules, measure, reconstruct, stable_projection, ProjectionRegion, Reconstruction,
    RuleConsumption, StableFields, StableProjectionRow,
};
pub use render::render;
pub use report::{human_report, json_report, verify, Divergence, Outcome, VerifyReport};

use crate::nav::{fnv_bytes, fnv_canonical, fnv_fold, push_fnv_canonical};
use crate::text::{decimal, push_decimal, push_str_chars, string_from};
use vstd::prelude::*;

verus! {

/// First snapshot format: a flat list of rules, no composition.
pub const SNAPSHOT_SCHEMA_V1: u64 = 1;

/// Adds composition (`base_snapshot`, `recipes`) and the operations
/// `exclude-file` and `exclude-key-prefix`.
pub const SNAPSHOT_SCHEMA_V2: u64 = 2;

/// Adds `override-region`, the atomic restoration of a region's hash and
/// summary.
pub const SNAPSHOT_SCHEMA_V3: u64 = 3;

/// Adds `materialize-region`, a historical region that no longer exists in the
/// current catalogue.
pub const SNAPSHOT_SCHEMA_V4: u64 = 4;

/// Adds `to_file` to `override-region`: the restoration of the path of a
/// region that moved to another file.
pub const SNAPSHOT_SCHEMA_V5: u64 = 5;

/// Highest accepted snapshot format, and the one new artefacts are born in.
pub const SNAPSHOT_SCHEMA: u64 = 5;

/// Schema of the verification report, distinct from the TOML artefact schema.
pub const SNAPSHOT_REPORT_SCHEMA: u64 = 1;

/// Canonical prefix of the FNV-1a 64 hashes.
pub const FNV_PREFIX: &'static str = "fnv1a64:";

/// Longest accepted snapshot identifier.
pub const MAX_ID_LEN: usize = 64;

/// Repository-relative directory of the snapshots.
pub const SNAPSHOTS_DIR: &'static str = ".pinker/projections/";

/// Which format is being read: the two authorities have their own versions.
#[derive(Debug, Clone, Copy, PartialEq, Eq, Structural)]
pub enum SchemaAuthority {
    Snapshot,
    Recipe,
}

/// The versions an authority accepts.
pub open spec fn authority_supports(a: SchemaAuthority, schema: u64) -> bool {
    match a {
        SchemaAuthority::Snapshot => 1 <= schema <= 5,
        SchemaAuthority::Recipe => 1 <= schema <= 3,
    }
}

pub open spec fn authority_name(a: SchemaAuthority) -> Seq<char> {
    match a {
        SchemaAuthority::Snapshot => "snapshot"@,
        SchemaAuthority::Recipe => "receita"@,
    }
}

pub open spec fn authority_versions(a: SchemaAuthority) -> Seq<char> {
    match a {
        SchemaAuthority::Snapshot => "1, 2, 3, 4 ou 5"@,
        SchemaAuthority::Recipe => "1, 2 ou 3"@,
    }
}

pub open spec fn authority_schema_code(a: SchemaAuthority) -> Seq<char> {
    match a {
        SchemaAuthority::Snapshot => "E-SNAP-SCHEMA"@,
        SchemaAuthority::Recipe => "E-RECEITA-SCHEMA"@,
    }
}

impl SchemaAuthority {
    pub fn as_str(&self) -> (s: &'static str)
        ensures
            s@ == authority_name(*self),
    {
        match self {
            SchemaAuthority::Snapshot => "snapshot",
            SchemaAuthority::Recipe => "receita",
        }
    }

    /// The versions this format supports, as text.
    pub fn supported_versions(&self) -> (s: &'static str)
        ensures
            s@ == authority_versions(*self),
    {
        match self {
            SchemaAuthority::Snapshot => "1, 2, 3, 4 ou 5",
            SchemaAuthority::Recipe => "1, 2 ou 3",
        }
    }

    /// Whether the declared version is one this format accepts.
    pub fn supports(&self, schema: u64) -> (b: bool)
        ensures
            b == authority_supports(*self, schema),
    {
        match self {
            SchemaAuthority::Snapshot => SNAPSHOT_SCHEMA_V1 <= schema && schema <= SNAPSHOT_SCHEMA_V5,
            SchemaAuthority::Recipe => 1 <= schema && schema <= 3,
        }
    }

    /// Stable code of this format's schema error.
    pub fn schema_error_code(&self) -> (s: &'static str)
        ensures
            s@ == authority_schema_code(*self),
    {
        match self {
            SchemaAuthority::Snapshot => "E-SNAP-SCHEMA",
            SchemaAuthority::Recipe => "E-RECEITA-SCHEMA",
        }
    }
}

/// State of a snapshot: `FROZEN` is immutable, `CANDIDATE` only becomes
/// `FROZEN` by explicit acceptance.
#[derive(Debug, Clone, Copy, PartialEq, Eq, Structural)]
pub enum SnapshotState {
    Frozen,
    Candidate,
}

pub open spec fn state_name(s: SnapshotState) -> Seq<char> {
    match s {
        SnapshotState::Frozen => "FROZEN"@,
        SnapshotState::Candidate => "CANDIDATE"@,
    }
}

impl SnapshotState {
    /// Canonical text, used in the TOML and in the reports.
    pub fn as_str(&self) -> (s: &'static str)
        ensures
            s@ == state_name(*self),
    {
        match self {
            SnapshotState::Frozen => "FROZEN",
            SnapshotState::Candidate => "CANDIDATE",
        }
    }

    /// The state whose canonical text is `value`.
    pub fn parse(value: &str) -> (r: Option<SnapshotState>)
        ensures
            r matches Some(s) ==> state_name(s) == value@,
            r is None ==> value@ != "FROZEN"@ && value@ != "CANDIDATE"@,
    {
        if crate::text::str_eq(value, "FROZEN") {
            Some(SnapshotState::Frozen)
        } else if crate::text::str_eq(value, "CANDIDATE") {
            Some(SnapshotState::Candidate)
        } else {
            None
        }
    }
}

/// The three frozen measures of a stable projection.
#[derive(Debug, Clone, Copy, PartialEq, Eq, Structural)]
pub struct Measures {
    /// Number of regions in the projection.
    pub regions: u64,
    /// Byte length of the stable projection.
    pub length: u64,
    /// FNV-1a 64 of the stable projection.
    pub fnv1a64: u64,
}

impl Measures {
    /// `fnv1a64:` followed by 16 lower-case hexadecimal digits.
    pub fn fnv1a64_canonical(&self) -> (s: String)
        ensures
            s@ == fnv_canonical(self.fnv1a64),
    {
        let mut out: Vec<char> = Vec::new();
        push_fnv_canonical(&mut out, self.fnv1a64);
        string_from(&out)
    }
}

/// What a rule holds, with its texts as character sequences.
pub enum RuleView {
    OverrideHash {
        key: Seq<char>,
        from: Seq<char>,
        to: Seq<char>,
        expect_file: Option<Seq<char>>,
        expect_domain: Option<Seq<char>>,
        expect_layer: Option<Seq<char>>,
    },
    ExcludeKey { key: Seq<char>, expected_matches: u64 },
    ExcludeFilePrefix { prefix: Seq<char>, expected_matches: u64 },
    ExcludeFile { file: Seq<char>, expected_matches: u64 },
    ExcludeKeyPrefix { prefix: Seq<char>, expected_matches: u64 },
    OverrideRegion {
        key: Seq<char>,
        from_hash: Option<Seq<char>>,
        to_hash: Option<Seq<char>>,
        from_summary: Option<Seq<char>>,
        to_summary: Option<Seq<char>>,
        expect_file: Option<Seq<char>>,
        to_file: Option<Seq<char>>,
        expect_domain: Option<Seq<char>>,
        expect_layer: Option<Seq<char>>,
    },
    MaterializeRegion {
        key: Seq<char>,
        kind: Seq<char>,
        domain: Option<Seq<char>>,
        layer: Option<Seq<char>>,
        file: Seq<char>,
        summary: Seq<char>,
        hash: Seq<char>,
        status: Seq<char>,
    },
}

/// The text of an optional string.
pub open spec fn opt_view(o: Option<String>) -> Option<Seq<char>> {
    match o {
        Some(s) => Some(s@),
        None => None,
    }
}

pub open spec fn rule_view(r: Rule) -> RuleView {
    match r {
        Rule::OverrideHash { key, from, to, expect_file, expect_domain, expect_layer } => RuleView::OverrideHash {
            key: key@,
            from: from@,
            to: to@,
            expect_file: opt_view(expect_file),
            expect_domain: opt_view(expect_domain),
            expect_layer: opt_view(expect_layer),
        },
        Rule::ExcludeKey { key, expected_matches } => RuleView::ExcludeKey { key: key@, expected_matches },
        Rule::ExcludeFilePrefix { prefix, expected_matches } => RuleView::ExcludeFilePrefix {
            prefix: prefix@,
            expected_matches,
        },
        Rule::ExcludeFile { file, expected_matches } => RuleView::ExcludeFile { file: file@, expected_matches },
        Rule::ExcludeKeyPrefix { prefix, expected_matches } => RuleView::ExcludeKeyPrefix {
            prefix: prefix@,
            expected_matches,
        },
        Rule::OverrideRegion {
            key,
            from_hash,
            to_hash,
            from_summary,
            to_summary,
            expect_file,
            to_file,
            expect_domain,
            expect_layer,
        } => RuleView::OverrideRegion {
            key: key@,
            from_hash: opt_view(from_hash),
            to_hash: opt_view(to_hash),
            from_summary: opt_view(from_summary),
            to_summary: opt_view(to_summary),
            expect_file: opt_view(expect_file),
            to_file: opt_view(to_file),
            expect_domain: opt_view(expect_domain),
            expect_layer: opt_view(expect_layer),
        },
        Rule::MaterializeRegion { key, kind, domain, layer, file, summary, hash, status } => RuleView::MaterializeRegion {
            key: key@,
            kind: kind@,
            domain: opt_view(domain),
            layer: opt_view(layer),
            file: file@,
            summary: summary@,
            hash: hash@,
            status: status@,
        },
    }
}

/// The views of a sequence of rules.
pub open spec fn rules_view(rs: Seq<Rule>) -> Seq<RuleView> {
    Seq::new(rs.len(), |i: int| rule_view(rs[i]))
}

/// A reconstruction rule, with its selector and consumption budget.
#[derive(Debug, Clone, PartialEq, Eq)]
pub enum Rule {
    /// Restores the hash of the region with the key.
    OverrideHash {
        key: String,
        from: String,
        to: String,
        expect_file: Option<String>,
        expect_domain: Option<String>,
        expect_layer: Option<String>,
    },
    /// Removes every region with the key.
    ExcludeKey { key: String, expected_matches: u64 },
    /// Removes every region whose path starts with the prefix.
    ExcludeFilePrefix { prefix: String, expected_matches: u64 },
    /// Removes every region of one exact file. Schema 2 on.
    ExcludeFile { file: String, expected_matches: u64 },
    /// Removes every region whose key starts with the prefix. Schema 2 on.
    ExcludeKeyPrefix { prefix: String, expected_matches: u64 },
    /// Atomic restoration of one region's hash, summary and/or file.
    OverrideRegion {
        key: String,
        from_hash: Option<String>,
        to_hash: Option<String>,
        from_summary: Option<String>,
        to_summary: Option<String>,
        expect_file: Option<String>,
        to_file: Option<String>,
        expect_domain: Option<String>,
        expect_layer: Option<String>,
    },
    /// A region of the historical state that no longer exists. Schema 4 on,
    /// snapshots only.
    MaterializeRegion {
        key: String,
        kind: String,
        domain: Option<String>,
        layer: Option<String>,
        file: String,
        summary: String,
        hash: String,
        status: String,
    },
}

pub open spec fn rule_op(r: RuleView) -> Seq<char> {
    match r {
        RuleView::OverrideHash { .. } => "override-hash"@,
        RuleView::ExcludeKey { .. } => "exclude-key"@,
        RuleView::ExcludeFilePrefix { .. } => "exclude-file-prefix"@,
        RuleView::ExcludeFile { .. } => "exclude-file"@,
        RuleView::ExcludeKeyPrefix { .. } => "exclude-key-prefix"@,
        RuleView::OverrideRegion { .. } => "override-region"@,
        RuleView::MaterializeRegion { .. } => "materialize-region"@,
    }
}

/// Lowest version supporting the rule in an authority.
pub open spec fn rule_min_schema(r: RuleView, a: SchemaAuthority) -> u64 {
    match r {
        RuleView::OverrideHash { .. } => 1,
        RuleView::ExcludeKey { .. } => 1,
        RuleView::ExcludeFilePrefix { .. } => 1,
        RuleView::ExcludeFile { .. } => if a == SchemaAuthority::Snapshot { 2 } else { 1 },
        RuleView::ExcludeKeyPrefix { .. } => if a == SchemaAuthority::Snapshot { 2 } else { 1 },
        RuleView::OverrideRegion { to_file, .. } => if to_file is Some {
            if a == SchemaAuthority::Snapshot { 5 } else { 3 }
        } else {
            if a == SchemaAuthority::Snapshot { 3 } else { 2 }
        },
        RuleView::MaterializeRegion { .. } => 4,
    }
}

pub open spec fn rule_selector(r: RuleView) -> Seq<char> {
    match r {
        RuleView::OverrideHash { key, .. } => key,
        RuleView::ExcludeKey { key, .. } => key,
        RuleView::ExcludeFilePrefix { prefix, .. } => prefix,
        RuleView::ExcludeFile { file, .. } => file,
        RuleView::ExcludeKeyPrefix { prefix, .. } => prefix,
        RuleView::OverrideRegion { key, .. } => key,
        RuleView::MaterializeRegion { key, .. } => key,
    }
}

pub open spec fn rule_expected(r: RuleView) -> u64 {
    match r {
        RuleView::ExcludeKey { expected_matches, .. } => expected_matches,
        RuleView::ExcludeFilePrefix { expected_matches, .. } => expected_matches,
        RuleView::ExcludeFile { expected_matches, .. } => expected_matches,
        RuleView::ExcludeKeyPrefix { expected_matches, .. } => expected_matches,
        _ => 1,
    }
}

pub open spec fn rule_is_override(r: RuleView) -> bool {
    r is OverrideHash || r is OverrideRegion
}

pub open spec fn rule_is_exclusion(r: RuleView) -> bool {
    !rule_is_override(r) && !(r is MaterializeRegion)
}

/// Canonical order between operations, which is also the order of
/// application: exclusions, then overrides, then materializations.
pub open spec fn rule_rank(r: RuleView) -> u8 {
    match r {
        RuleView::ExcludeKey { .. } => 0,
        RuleView::ExcludeKeyPrefix { .. } => 1,
        RuleView::ExcludeFile { .. } => 2,
        RuleView::ExcludeFilePrefix { .. } => 3,
        RuleView::OverrideHash { .. } => 4,
        RuleView::OverrideRegion { .. } => 5,
        RuleView::MaterializeRegion { .. } => 6,
    }
}

impl Rule {
    /// Canonical name of the operation.
    pub fn op(&self) -> (s: &'static str)
        ensures
            s@ == rule_op(rule_view(*self)),
    {
        match self {
            Rule::OverrideHash { .. } => "override-hash",
            Rule::ExcludeKey { .. } => "exclude-key",
            Rule::ExcludeFilePrefix { .. } => "exclude-file-prefix",
            Rule::ExcludeFile { .. } => "exclude-file",
            Rule::ExcludeKeyPrefix { .. } => "exclude-key-prefix",
            Rule::OverrideRegion { .. } => "override-region",
            Rule::MaterializeRegion { .. } => "materialize-region",
        }
    }

    /// Lowest version that supports this operation in the authority.
    pub fn min_schema(&self, authority: SchemaAuthority) -> (v: u64)
        ensures
            v == rule_min_schema(rule_view(*self), authority),
    {
        let snapshot = match authority {
            SchemaAuthority::Snapshot => true,
            SchemaAuthority::Recipe => false,
        };
        match self {
            Rule::OverrideHash { .. } => 1,
            Rule::ExcludeKey { .. } => 1,
            Rule::ExcludeFilePrefix { .. } => 1,
            Rule::ExcludeFile { .. } => if snapshot { SNAPSHOT_SCHEMA_V2 } else { 1 },
            Rule::ExcludeKeyPrefix { .. } => if snapshot { SNAPSHOT_SCHEMA_V2 } else { 1 },
            Rule::OverrideRegion { to_file, .. } => match to_file {
                Some(_) => if snapshot { SNAPSHOT_SCHEMA_V5 } else { 3 },
                None => if snapshot { SNAPSHOT_SCHEMA_V3 } else { 2 },
            },
            Rule::MaterializeRegion { .. } => SNAPSHOT_SCHEMA_V4,
        }
    }

    /// Textual selector of the rule, used in the canonical order and reports.
    pub fn selector(&self) -> (s: &str)
        ensures
            s@ == rule_selector(rule_view(*self)),
    {
        match self {
            Rule::OverrideHash { key, .. } => key.as_str(),
            Rule::ExcludeKey { key, .. } => key.as_str(),
            Rule::ExcludeFilePrefix { prefix, .. } => prefix.as_str(),
            Rule::ExcludeFile { file, .. } => file.as_str(),
            Rule::ExcludeKeyPrefix { prefix, .. } => prefix.as_str(),
            Rule::OverrideRegion { key, .. } => key.as_str(),
            Rule::MaterializeRegion { key, .. } => key.as_str(),
        }
    }

    /// How many matches the rule must consume.
    pub fn expected_matches(&self) -> (n: u64)
        ensures
            n == rule_expected(rule_view(*self)),
    {
        match self {
            Rule::ExcludeKey { expected_matches, .. } => *expected_matches,
            Rule::ExcludeFilePrefix { expected_matches, .. } => *expected_matches,
            Rule::ExcludeFile { expected_matches, .. } => *expected_matches,
            Rule::ExcludeKeyPrefix { expected_matches, .. } => *expected_matches,
            _ => 1,
        }
    }

    /// True for the operations that restore fields of a region.
    pub fn is_override(&self) -> (b: bool)
        ensures
            b == rule_is_override(rule_view(*self)),
    {
        match self {
            Rule::OverrideHash { .. } => true,
            Rule::OverrideRegion { .. } => true,
            _ => false,
        }
    }

    /// True for the operation that declares an absent historical fact.
    pub fn is_materialization(&self) -> (b: bool)
        ensures
            b == (rule_view(*self) is MaterializeRegion),
    {
        match self {
            Rule::MaterializeRegion { .. } => true,
            _ => false,
        }
    }

    /// Canonical rank of the operation.
    pub fn op_rank(&self) -> (k: u8)
        ensures
            k == rule_rank(rule_view(*self)),
    {
        match self {
            Rule::ExcludeKey { .. } => 0,
            Rule::ExcludeKeyPrefix { .. } => 1,
            Rule::ExcludeFile { .. } => 2,
            Rule::ExcludeFilePrefix { .. } => 3,
            Rule::OverrideHash { .. } => 4,
            Rule::OverrideRegion { .. } => 5,
            Rule::MaterializeRegion { .. } => 6,
        }
    }
}

/// A copy of an optional string.
pub fn clone_opt(o: &Option<String>) -> (c: Option<String>)
    ensures
        c == *o,
{
    match o {
        Some(s) => Some(s.clone()),
        None => None,
    }
}

/// A copy of a rule.
pub fn clone_rule(r: &Rule) -> (c: Rule)
    ensures
        c == *r,
{
    match r {
        Rule::OverrideHash { key, from, to, expect_file, expect_domain, expect_layer } => {
            Rule::OverrideHash {
                key: key.clone(),
                from: from.clone(),
                to: to.clone(),
                expect_file: clone_opt(expect_file),
                expect_domain: clone_opt(expect_domain),
                expect_layer: clone_opt(expect_layer),
            }
        },
        Rule::ExcludeKey { key, expected_matches } => Rule::ExcludeKey {
            key: key.clone(),
            expected_matches: *expected_matches,
        },
        Rule::ExcludeFilePrefix { prefix, expected_matches } => Rule::ExcludeFilePrefix {
            prefix: prefix.clone(),
            expected_matches: *expected_matches,
        },
        Rule::ExcludeFile { file, expected_matches } => Rule::ExcludeFile {
            file: file.clone(),
            expected_matches: *expected_matches,
        },
        Rule::ExcludeKeyPrefix { prefix, expected_matches } => Rule::ExcludeKeyPrefix {
            prefix: prefix.clone(),
            expected_matches: *expected_matches,
        },
        Rule::OverrideRegion {
            key,
            from_hash,
            to_hash,
            from_summary,
            to_summary,
            expect_file,
            to_file,
            expect_domain,
            expect_layer,
        } => Rule::OverrideRegion {
            key: key.clone(),
            from_hash: clone_opt(from_hash),
            to_hash: clone_opt(to_hash),
            from_summary: clone_opt(from_summary),
            to_summary: clone_opt(to_summary),
            expect_file: clone_opt(expect_file),
            to_file: clone_opt(to_file),
            expect_domain: clone_opt(expect_domain),
            expect_layer: clone_opt(expect_layer),
        },
        Rule::MaterializeRegion { key, kind, domain, layer, file, summary, hash, status } => {
            Rule::MaterializeRegion {
                key: key.clone(),
                kind: kind.clone(),
                domain: clone_opt(domain),
                layer: clone_opt(layer),
                file: file.clone(),
                summary: summary.clone(),
                hash: hash.clone(),
                status: status.clone(),
            }
        },
    }
}

/// A complete historical snapshot.
#[derive(Debug, Clone, PartialEq, Eq)]
pub struct ProjectionSnapshot {
    pub schema: u64,
    pub id: String,
    pub state: SnapshotState,
    pub predecessor: Option<String>,
    pub justification: Option<String>,
    pub measures: Measures,
    /// Declared number of override rules.
    pub expected_overrides: u64,
    /// Declared number of exclusion rules.
    pub expected_exclusions: u64,
    /// Declared number of `materialize-region` rules. Schema 4 on.
    pub expected_materializations: u64,
    /// Snapshot this reconstruction builds on (composition). Schema 2 on.
    pub base_snapshot: Option<String>,
    /// Recipes applied in the declared order, after the base.
    pub recipes: Vec<String>,
    /// Rules in canonical order.
    pub rules: Vec<Rule>,
}


/// What a snapshot holds, with its texts as character sequences.
pub struct SnapshotView {
    pub schema: u64,
    pub id: Seq<char>,
    pub state: SnapshotState,
    pub predecessor: Option<Seq<char>>,
    pub justification: Option<Seq<char>>,
    pub measures: Measures,
    pub expected_overrides: u64,
    pub expected_exclusions: u64,
    pub expected_materializations: u64,
    pub base_snapshot: Option<Seq<char>>,
    pub recipes: Seq<Seq<char>>,
    pub rules: Seq<RuleView>,
}

pub open spec fn snapshot_view(s: ProjectionSnapshot) -> SnapshotView {
    SnapshotView {
        schema: s.schema,
        id: s.id@,
        state: s.state,
        predecessor: opt_view(s.predecessor),
        justification: opt_view(s.justification),
        measures: s.measures,
        expected_overrides: s.expected_overrides,
        expected_exclusions: s.expected_exclusions,
        expected_materializations: s.expected_materializations,
        base_snapshot: opt_view(s.base_snapshot),
        recipes: crate::text::string_rows(s.recipes@),
        rules: rules_view(s.rules@),
    }
}

impl ProjectionSnapshot {
    /// Authority and capability of this model, wherever it came from.
    pub fn validate_model(&self) -> (r: Result<(), HarnessFailure>)
        ensures
            parser::result_unit_view(r) == parser::rules_check(
                self.schema,
                rules_view(self.rules@),
                SchemaAuthority::Snapshot,
            ),
    {
        parser::validate_rules(self.schema, self.rules.as_slice(), SchemaAuthority::Snapshot)
    }

    /// Canonical repository-relative path of this snapshot's file.
    pub fn relative_path(&self) -> (s: String)
        ensures
            s@ == SNAPSHOTS_DIR@ + self.id@ + ".toml"@,
    {
        let mut out: Vec<char> = Vec::new();
        push_str_chars(&mut out, SNAPSHOTS_DIR);
        push_str_chars(&mut out, self.id.as_str());
        push_str_chars(&mut out, ".toml");
        string_from(&out)
    }
}

/// Syntax error in the accepted TOML subset.
#[derive(Debug, Clone, PartialEq, Eq)]
pub struct TomlError {
    pub line: usize,
    pub msg: String,
}

impl TomlError {
    /// `linha <line>: <msg>`.
    pub fn message(&self) -> (s: String)
        ensures
            s@ == "linha "@ + decimal(self.line as nat) + ": "@ + self.msg@,
    {
        let mut out: Vec<char> = Vec::new();
        push_str_chars(&mut out, "linha ");
        push_decimal(&mut out, self.line as u64);
        push_str_chars(&mut out, ": ");
        push_str_chars(&mut out, self.msg.as_str());
        string_from(&out)
    }
}

/// Fatal harness failure. Never drift.
#[derive(Debug, Clone, PartialEq, Eq)]
pub enum HarnessFailure {
    Toml(TomlError),
    MissingField { field: String },
    InvalidField { field: String, msg: String },
    SchemaUnknown { authority: SchemaAuthority, found: u64 },
    IdUnsafe { field: String, value: String },
    StateUnknown { value: String },
    HashInvalid { field: String, value: String },
    PredecessorSelfReference { id: String },
    PathAbsolute { field: String, value: String },
    PathTraversal { field: String, value: String },
    RuleWithoutOperation { index: usize },
    RuleOperationUnknown { index: usize, op: String },
    RuleWithoutSelector { index: usize, op: String },
    OverrideMissing { declared: u64, found: u64 },
    OverrideExcess { declared: u64, found: u64 },
    OverrideRepeated { key: String },
    ExclusionMissing { declared: u64, found: u64 },
    ExclusionExcess { declared: u64, found: u64 },
    ExclusionRepeated { selector: String },
    RegionRemoved { key: String },
    KeyChanged { expected: String, found: String },
    SelectorAmbiguous { key: String, matches: usize },
    OverrideNotConsumed { key: String },
    PathChanged { key: String, expected: String, found: String },
    MetadataChanged { key: String, field: String, expected: String, found: String },
    OverrideStaleSummary { key: String, expected: String, found: String },
    FieldNotAllowedForOp { op: String, field: String },
    OverrideRegionPairInvalid { key: String, msg: String },
    OverrideStaleBase { key: String, expected: String, found: String },
    ExclusionNoMatch { selector: String },
    DuplicateSnapshot { id: String },
    DuplicateRecipe { id: String },
    BaseSnapshotMissing { id: String },
    RecipeMissing { id: String },
    CompositionCycle { path: String },
    BaseMeasuresDiverged { id: String, expected: Measures, observed: Measures },
    FrozenDependsOnCandidate { frozen: String, candidate: String },
    RecipeHasSnapshotField { field: String },
    CapabilityRequiresSchema {
        authority: SchemaAuthority,
        capability: String,
        found_schema: u64,
        required_schema: u64,
    },
    SelfBase { id: String },
    RecipeSelfStep { id: String },
    ExclusionPartiallyConsumed { selector: String, expected: u64, consumed: u64 },
    MaterializationMissing { declared: u64, found: u64 },
    MaterializationExcess { declared: u64, found: u64 },
    MaterializationRepeated { key: String },
    MaterializationCollision { key: String },
    OperationOutsideAuthority { authority: SchemaAuthority, op: String },
}

/// What a failure holds: its variant and the text of its fields.
pub enum FailureView {
    Toml(usize, Seq<char>),
    MissingField { field: Seq<char> },
    InvalidField { field: Seq<char>, msg: Seq<char> },
    SchemaUnknown { authority: SchemaAuthority, found: u64 },
    IdUnsafe { field: Seq<char>, value: Seq<char> },
    StateUnknown { value: Seq<char> },
    HashInvalid { field: Seq<char>, value: Seq<char> },
    PredecessorSelfReference { id: Seq<char> },
    PathAbsolute { field: Seq<char>, value: Seq<char> },
    PathTraversal { field: Seq<char>, value: Seq<char> },
    RuleWithoutOperation { index: usize },
    RuleOperationUnknown { index: usize, op: Seq<char> },
    RuleWithoutSelector { index: usize, op: Seq<char> },
    OverrideMissing { declared: u64, found: u64 },
    OverrideExcess { declared: u64, found: u64 },
    OverrideRepeated { key: Seq<char> },
    ExclusionMissing { declared: u64, found: u64 },
    ExclusionExcess { declared: u64, found: u64 },
    ExclusionRepeated { selector: Seq<char> },
    RegionRemoved { key: Seq<char> },
    KeyChanged { expected: Seq<char>, found: Seq<char> },
    SelectorAmbiguous { key: Seq<char>, matches: usize },
    OverrideNotConsumed { key: Seq<char> },
    PathChanged { key: Seq<char>, expected: Seq<char>, found: Seq<char> },
    MetadataChanged { key: Seq<char>, field: Seq<char>, expected: Seq<char>, found: Seq<char> },
    OverrideStaleSummary { key: Seq<char>, expected: Seq<char>, found: Seq<char> },
    FieldNotAllowedForOp { op: Seq<char>, field: Seq<char> },
    OverrideRegionPairInvalid { key: Seq<char>, msg: Seq<char> },
    OverrideStaleBase { key: Seq<char>, expected: Seq<char>, found: Seq<char> },
    ExclusionNoMatch { selector: Seq<char> },
    DuplicateSnapshot { id: Seq<char> },
    DuplicateRecipe { id: Seq<char> },
    BaseSnapshotMissing { id: Seq<char> },
    RecipeMissing { id: Seq<char> },
    CompositionCycle { path: Seq<char> },
    BaseMeasuresDiverged { id: Seq<char>, expected: Measures, observed: Measures },
    FrozenDependsOnCandidate { frozen: Seq<char>, candidate: Seq<char> },
    RecipeHasSnapshotField { field: Seq<char> },
    CapabilityRequiresSchema { authority: SchemaAuthority, capability: Seq<char>, found_schema: u64, required_schema: u64 },
    SelfBase { id: Seq<char> },
    RecipeSelfStep { id: Seq<char> },
    ExclusionPartiallyConsumed { selector: Seq<char>, expected: u64, consumed: u64 },
    MaterializationMissing { declared: u64, found: u64 },
    MaterializationExcess { declared: u64, found: u64 },
    MaterializationRepeated { key: Seq<char> },
    MaterializationCollision { key: Seq<char> },
    OperationOutsideAuthority { authority: SchemaAuthority, op: Seq<char> },
}

pub open spec fn failure_view(f: HarnessFailure) -> FailureView {
    match f {
        HarnessFailure::Toml(e) => FailureView::Toml(e.line, e.msg@),
        HarnessFailure::MissingField { field } => FailureView::MissingField { field: field@ },
        HarnessFailure::InvalidField { field, msg } => FailureView::InvalidField { field: field@, msg: msg@ },
        HarnessFailure::SchemaUnknown { authority, found } => FailureView::SchemaUnknown { authority, found },
        HarnessFailure::IdUnsafe { field, value } => FailureView::IdUnsafe { field: field@, value: value@ },
        HarnessFailure::StateUnknown { value } => FailureView::StateUnknown { value: value@ },
        HarnessFailure::HashInvalid { field, value } => FailureView::HashInvalid { field: field@, value: value@ },
        HarnessFailure::PredecessorSelfReference { id } => FailureView::PredecessorSelfReference { id: id@ },
        HarnessFailure::PathAbsolute { field, value } => FailureView::PathAbsolute { field: field@, value: value@ },
        HarnessFailure::PathTraversal { field, value } => FailureView::PathTraversal { field: field@, value: value@ },
        HarnessFailure::RuleWithoutOperation { index } => FailureView::RuleWithoutOperation { index },
        HarnessFailure::RuleOperationUnknown { index, op } => FailureView::RuleOperationUnknown { index, op: op@ },
        HarnessFailure::RuleWithoutSelector { index, op } => FailureView::RuleWithoutSelector { index, op: op@ },
        HarnessFailure::OverrideMissing { declared, found } => FailureView::OverrideMissing { declared, found },
        HarnessFailure::OverrideExcess { declared, found } => FailureView::OverrideExcess { declared, found },
        HarnessFailure::OverrideRepeated { key } => FailureView::OverrideRepeated { key: key@ },
        HarnessFailure::ExclusionMissing { declared, found } => FailureView::ExclusionMissing { declared, found },
        HarnessFailure::ExclusionExcess { declared, found } => FailureView::ExclusionExcess { declared, found },
        HarnessFailure::ExclusionRepeated { selector } => FailureView::ExclusionRepeated { selector: selector@ },
        HarnessFailure::RegionRemoved { key } => FailureView::RegionRemoved { key: key@ },
        HarnessFailure::KeyChanged { expected, found } => FailureView::KeyChanged { expected: expected@, found: found@ },
        HarnessFailure::SelectorAmbiguous { key, matches } => FailureView::SelectorAmbiguous { key: key@, matches },
        HarnessFailure::OverrideNotConsumed { key } => FailureView::OverrideNotConsumed { key: key@ },
        HarnessFailure::PathChanged { key, expected, found } => FailureView::PathChanged { key: key@, expected: expected@, found: found@ },
        HarnessFailure::MetadataChanged { key, field, expected, found } => FailureView::MetadataChanged { key: key@, field: field@, expected: expected@, found: found@ },
        HarnessFailure::OverrideStaleSummary { key, expected, found } => FailureView::OverrideStaleSummary { key: key@, expected: expected@, found: found@ },
        HarnessFailure::FieldNotAllowedForOp { op, field } => FailureView::FieldNotAllowedForOp { op: op@, field: field@ },
        HarnessFailure::OverrideRegionPairInvalid { key, msg } => FailureView::OverrideRegionPairInvalid { key: key@, msg: msg@ },
        HarnessFailure::OverrideStaleBase { key, expected, found } => FailureView::OverrideStaleBase { key: key@, expected: expected@, found: found@ },
        HarnessFailure::ExclusionNoMatch { selector } => FailureView::ExclusionNoMatch { selector: selector@ },
        HarnessFailure::DuplicateSnapshot { id } => FailureView::DuplicateSnapshot { id: id@ },
        HarnessFailure::DuplicateRecipe { id } => FailureView::DuplicateRecipe { id: id@ },
        HarnessFailure::BaseSnapshotMissing { id } => FailureView::BaseSnapshotMissing { id: id@ },
        HarnessFailure::RecipeMissing { id } => FailureView::RecipeMissing { id: id@ },
        HarnessFailure::CompositionCycle { path } => FailureView::CompositionCycle { path: path@ },
        HarnessFailure::BaseMeasuresDiverged { id, expected, observed } => FailureView::BaseMeasuresDiverged { id: id@, expected, observed },
        HarnessFailure::FrozenDependsOnCandidate { frozen, candidate } => FailureView::FrozenDependsOnCandidate { frozen: frozen@, candidate: candidate@ },
        HarnessFailure::RecipeHasSnapshotField { field } => FailureView::RecipeHasSnapshotField { field: field@ },
        HarnessFailure::CapabilityRequiresSchema { authority, capability, found_schema, required_schema } => FailureView::CapabilityRequiresSchema { authority, capability: capability@, found_schema, required_schema },
        HarnessFailure::SelfBase { id } => FailureView::SelfBase { id: id@ },
        HarnessFailure::RecipeSelfStep { id } => FailureView::RecipeSelfStep { id: id@ },
        HarnessFailure::ExclusionPartiallyConsumed { selector, expected, consumed } => FailureView::ExclusionPartiallyConsumed { selector: selector@, expected, consumed },
        HarnessFailure::MaterializationMissing { declared, found } => FailureView::MaterializationMissing { declared, found },
        HarnessFailure::MaterializationExcess { declared, found } => FailureView::MaterializationExcess { declared, found },
        HarnessFailure::MaterializationRepeated { key } => FailureView::MaterializationRepeated { key: key@ },
        HarnessFailure::MaterializationCollision { key } => FailureView::MaterializationCollision { key: key@ },
        HarnessFailure::OperationOutsideAuthority { authority, op } => FailureView::OperationOutsideAuthority { authority, op: op@ },
    }
}

/// Stable code of a failure.
pub open spec fn failure_code(f: HarnessFailure) -> Seq<char> {
    match f {
        HarnessFailure::Toml(_) => "E-SNAP-TOML"@,
        HarnessFailure::MissingField { .. } => "E-SNAP-CAMPO-AUSENTE"@,
        HarnessFailure::InvalidField { .. } => "E-SNAP-CAMPO-INVALIDO"@,
        HarnessFailure::SchemaUnknown { authority, .. } => authority_schema_code(authority),
        HarnessFailure::IdUnsafe { .. } => "E-SNAP-ID"@,
        HarnessFailure::StateUnknown { .. } => "E-SNAP-ESTADO"@,
        HarnessFailure::HashInvalid { .. } => "E-SNAP-HASH"@,
        HarnessFailure::PredecessorSelfReference { .. } => "E-SNAP-PREDECESSOR"@,
        HarnessFailure::PathAbsolute { .. } => "E-SNAP-PATH-ABSOLUTO"@,
        HarnessFailure::PathTraversal { .. } => "E-SNAP-PATH-TRAVESSIA"@,
        HarnessFailure::RuleWithoutOperation { .. } => "E-SNAP-REGRA-SEM-OPERACAO"@,
        HarnessFailure::RuleOperationUnknown { .. } => "E-SNAP-REGRA-OPERACAO"@,
        HarnessFailure::RuleWithoutSelector { .. } => "E-SNAP-REGRA-SEM-SELETOR"@,
        HarnessFailure::OverrideMissing { .. } => "E-SNAP-OVERRIDE-AUSENTE"@,
        HarnessFailure::OverrideExcess { .. } => "E-SNAP-OVERRIDE-EXCEDENTE"@,
        HarnessFailure::OverrideRepeated { .. } => "E-SNAP-OVERRIDE-REPETIDO"@,
        HarnessFailure::ExclusionMissing { .. } => "E-SNAP-EXCLUSAO-AUSENTE"@,
        HarnessFailure::ExclusionExcess { .. } => "E-SNAP-EXCLUSAO-EXCEDENTE"@,
        HarnessFailure::ExclusionRepeated { .. } => "E-SNAP-EXCLUSAO-REPETIDA"@,
        HarnessFailure::RegionRemoved { .. } => "E-SNAP-REGIAO-REMOVIDA"@,
        HarnessFailure::KeyChanged { .. } => "E-SNAP-KEY-ALTERADA"@,
        HarnessFailure::SelectorAmbiguous { .. } => "E-SNAP-SELETOR-AMBIGUO"@,
        HarnessFailure::OverrideNotConsumed { .. } => "E-SNAP-OVERRIDE-NAO-CONSUMIDO"@,
        HarnessFailure::PathChanged { .. } => "E-SNAP-PATH-ALTERADO"@,
        HarnessFailure::MetadataChanged { .. } => "E-SNAP-METADATA-ALTERADA"@,
        HarnessFailure::OverrideStaleSummary { .. } => "E-SNAP-OVERRIDE-SUMMARY"@,
        HarnessFailure::FieldNotAllowedForOp { .. } => "E-SNAP-CAMPO-DA-OPERACAO"@,
        HarnessFailure::OverrideRegionPairInvalid { .. } => "E-SNAP-OVERRIDE-PAR"@,
        HarnessFailure::OverrideStaleBase { .. } => "E-SNAP-OVERRIDE-BASE"@,
        HarnessFailure::ExclusionNoMatch { .. } => "E-SNAP-EXCLUSAO-SEM-CORRESPONDENCIA"@,
        HarnessFailure::DuplicateSnapshot { .. } => "E-SNAP-SNAPSHOT-DUPLICADO"@,
        HarnessFailure::DuplicateRecipe { .. } => "E-SNAP-RECEITA-DUPLICADA"@,
        HarnessFailure::BaseSnapshotMissing { .. } => "E-SNAP-BASE-AUSENTE"@,
        HarnessFailure::RecipeMissing { .. } => "E-SNAP-RECEITA-AUSENTE"@,
        HarnessFailure::CompositionCycle { .. } => "E-SNAP-CICLO"@,
        HarnessFailure::BaseMeasuresDiverged { .. } => "E-SNAP-BASE-DIVERGENTE"@,
        HarnessFailure::FrozenDependsOnCandidate { .. } => "E-SNAP-CONGELADO-SOBRE-CANDIDATO"@,
        HarnessFailure::RecipeHasSnapshotField { .. } => "E-SNAP-RECEITA-CAMPO-DE-SNAPSHOT"@,
        HarnessFailure::CapabilityRequiresSchema { authority, .. } => match authority {
            SchemaAuthority::Snapshot => "E-SNAP-CAPACIDADE-SCHEMA"@,
            SchemaAuthority::Recipe => "E-RECEITA-CAPACIDADE-SCHEMA"@,
        },
        HarnessFailure::SelfBase { .. } => "E-SNAP-BASE-PROPRIA"@,
        HarnessFailure::RecipeSelfStep { .. } => "E-RECEITA-PASSO-PROPRIO"@,
        HarnessFailure::ExclusionPartiallyConsumed { .. } => "E-SNAP-EXCLUSAO-PARCIAL"@,
        HarnessFailure::MaterializationMissing { .. } => "E-SNAP-MATERIALIZACAO-AUSENTE"@,
        HarnessFailure::MaterializationExcess { .. } => "E-SNAP-MATERIALIZACAO-EXCEDENTE"@,
        HarnessFailure::MaterializationRepeated { .. } => "E-SNAP-MATERIALIZACAO-REPETIDA"@,
        HarnessFailure::MaterializationCollision { .. } => "E-SNAP-MATERIALIZACAO-COLISAO"@,
        HarnessFailure::OperationOutsideAuthority { .. } => "E-SNAP-OPERACAO-FORA-DA-AUTORIDADE"@,
    }
}

impl HarnessFailure {
    /// Stable code of the failure, used in the JSON and human reports.
    pub fn code(&self) -> (s: &'static str)
        ensures
            s@ == failure_code(*self),
    {
        match self {
            HarnessFailure::Toml(_) => "E-SNAP-TOML",
            HarnessFailure::MissingField { .. } => "E-SNAP-CAMPO-AUSENTE",
            HarnessFailure::InvalidField { .. } => "E-SNAP-CAMPO-INVALIDO",
            HarnessFailure::SchemaUnknown { authority, .. } => authority.schema_error_code(),
            HarnessFailure::IdUnsafe { .. } => "E-SNAP-ID",
            HarnessFailure::StateUnknown { .. } => "E-SNAP-ESTADO",
            HarnessFailure::HashInvalid { .. } => "E-SNAP-HASH",
            HarnessFailure::PredecessorSelfReference { .. } => "E-SNAP-PREDECESSOR",
            HarnessFailure::PathAbsolute { .. } => "E-SNAP-PATH-ABSOLUTO",
            HarnessFailure::PathTraversal { .. } => "E-SNAP-PATH-TRAVESSIA",
            HarnessFailure::RuleWithoutOperation { .. } => "E-SNAP-REGRA-SEM-OPERACAO",
            HarnessFailure::RuleOperationUnknown { .. } => "E-SNAP-REGRA-OPERACAO",
            HarnessFailure::RuleWithoutSelector { .. } => "E-SNAP-REGRA-SEM-SELETOR",
            HarnessFailure::OverrideMissing { .. } => "E-SNAP-OVERRIDE-AUSENTE",
            HarnessFailure::OverrideExcess { .. } => "E-SNAP-OVERRIDE-EXCEDENTE",
            HarnessFailure::OverrideRepeated { .. } => "E-SNAP-OVERRIDE-REPETIDO",
            HarnessFailure::ExclusionMissing { .. } => "E-SNAP-EXCLUSAO-AUSENTE",
            HarnessFailure::ExclusionExcess { .. } => "E-SNAP-EXCLUSAO-EXCEDENTE",
            HarnessFailure::ExclusionRepeated { .. } => "E-SNAP-EXCLUSAO-REPETIDA",
            HarnessFailure::RegionRemoved { .. } => "E-SNAP-REGIAO-REMOVIDA",
            HarnessFailure::KeyChanged { .. } => "E-SNAP-KEY-ALTERADA",
            HarnessFailure::SelectorAmbiguous { .. } => "E-SNAP-SELETOR-AMBIGUO",
            HarnessFailure::OverrideNotConsumed { .. } => "E-SNAP-OVERRIDE-NAO-CONSUMIDO",
            HarnessFailure::PathChanged { .. } => "E-SNAP-PATH-ALTERADO",
            HarnessFailure::MetadataChanged { .. } => "E-SNAP-METADATA-ALTERADA",
            HarnessFailure::OverrideStaleSummary { .. } => "E-SNAP-OVERRIDE-SUMMARY",
            HarnessFailure::FieldNotAllowedForOp { .. } => "E-SNAP-CAMPO-DA-OPERACAO",
            HarnessFailure::OverrideRegionPairInvalid { .. } => "E-SNAP-OVERRIDE-PAR",
            HarnessFailure::OverrideStaleBase { .. } => "E-SNAP-OVERRIDE-BASE",
            HarnessFailure::ExclusionNoMatch { .. } => "E-SNAP-EXCLUSAO-SEM-CORRESPONDENCIA",
            HarnessFailure::DuplicateSnapshot { .. } => "E-SNAP-SNAPSHOT-DUPLICADO",
            HarnessFailure::DuplicateRecipe { .. } => "E-SNAP-RECEITA-DUPLICADA",
            HarnessFailure::BaseSnapshotMissing { .. } => "E-SNAP-BASE-AUSENTE",
            HarnessFailure::RecipeMissing { .. } => "E-SNAP-RECEITA-AUSENTE",
            HarnessFailure::CompositionCycle { .. } => "E-SNAP-CICLO",
            HarnessFailure::BaseMeasuresDiverged { .. } => "E-SNAP-BASE-DIVERGENTE",
            HarnessFailure::FrozenDependsOnCandidate { .. } => "E-SNAP-CONGELADO-SOBRE-CANDIDATO",
            HarnessFailure::RecipeHasSnapshotField { .. } => "E-SNAP-RECEITA-CAMPO-DE-SNAPSHOT",
            HarnessFailure::CapabilityRequiresSchema { authority, .. } => match authority {
                SchemaAuthority::Snapshot => "E-SNAP-CAPACIDADE-SCHEMA",
                SchemaAuthority::Recipe => "E-RECEITA-CAPACIDADE-SCHEMA",
            },
            HarnessFailure::SelfBase { .. } => "E-SNAP-BASE-PROPRIA",
            HarnessFailure::RecipeSelfStep { .. } => "E-RECEITA-PASSO-PROPRIO",
            HarnessFailure::ExclusionPartiallyConsumed { .. } => "E-SNAP-EXCLUSAO-PARCIAL",
            HarnessFailure::MaterializationMissing { .. } => "E-SNAP-MATERIALIZACAO-AUSENTE",
            HarnessFailure::MaterializationExcess { .. } => "E-SNAP-MATERIALIZACAO-EXCEDENTE",
            HarnessFailure::MaterializationRepeated { .. } => "E-SNAP-MATERIALIZACAO-REPETIDA",
            HarnessFailure::MaterializationCollision { .. } => "E-SNAP-MATERIALIZACAO-COLISAO",
            HarnessFailure::OperationOutsideAuthority { .. } => "E-SNAP-OPERACAO-FORA-DA-AUTORIDADE",
        }
    }
}

/// FNV-1a 64 over bytes.
pub fn fnv1a64(bytes: &[u8]) -> (h: u64)
    ensures
        h == fnv_fold(bytes@),
{
    fnv_bytes(bytes)
}

/// Canonical form of the hash of a projection.
pub fn fnv1a64_canonical(bytes: &[u8]) -> (s: String)
    ensures
        s@ == fnv_canonical(fnv_fold(bytes@)),
{
    let mut out: Vec<char> = Vec::new();
    push_fnv_canonical(&mut out, fnv_bytes(bytes));
    string_from(&out)
}

} // verus!
