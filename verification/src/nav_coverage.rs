//! Current coverage of the code cartography.
//!
//! The catalogue proves that the published regions are consistent; it does
//! not prove that the current code is mapped. This module starts from the
//! physical universe of files of the official roots, never from the markers,
//! and answers per file: how many regions, which intervals are covered, which
//! relevant intervals are not, the completeness and the declared disposition.
//! Scope, exceptions and key dispositions come from one versioned authority,
//! a JSONL file; the derived catalogue is never an exception authority.
use crate::jsonl::{
    fault_msg, member_value, object_of, object_view, parse_object, value_int, value_str,
    value_str_array, JsonObject, ValueView,
};
use crate::nav::{CodeIndex, CodeRegion, MarkerDialect, OfficialSourceFile};
use crate::nav_projection_snapshot::report::{json_quoted, push_json_string};
use crate::text::{
    chars_of, decimal, has_suffix, lines, push_all, push_decimal, push_str_chars, rows, seq_lt, split,
    split_lines, split_vec, string_from, string_rows, text_le, trim, trimmed,
};
use vstd::prelude::*;

verus! {

/// Public schema of the coverage inventory.
pub const COVERAGE_SCHEMA: u64 = 1;

/// Repository-relative path of the one versioned authority of scope and
/// exceptions.
pub const POLICY_PATH: &'static str = ".pinker/cartography/coverage-policy-v1.jsonl";

/// Schema accepted in the records of the policy authority.
pub const POLICY_SCHEMA: i64 = 1;

/// Level of coverage demanded of an official root.
#[derive(Debug, Clone, Copy, PartialEq, Eq, PartialOrd, Ord, Structural)]
pub enum Enforcement {
    /// Production: every file needs coverage or an approved narrow exception.
    Required,
    /// Inventoried and shown, not demanded in this unit.
    Inventory,
}

pub open spec fn enforcement_name(e: Enforcement) -> Seq<char> {
    match e {
        Enforcement::Required => "required"@,
        Enforcement::Inventory => "inventory"@,
    }
}

pub open spec fn enforcement_of(v: Seq<char>) -> Option<Enforcement> {
    if v == "required"@ {
        Some(Enforcement::Required)
    } else if v == "inventory"@ {
        Some(Enforcement::Inventory)
    } else {
        None
    }
}

impl Enforcement {
    pub fn as_str(self) -> (s: &'static str)
        ensures
            s@ == enforcement_name(self),
    {
        match self {
            Enforcement::Required => "required",
            Enforcement::Inventory => "inventory",
        }
    }

    pub fn parse(value: &str) -> (r: Option<Enforcement>)
        ensures
            r == enforcement_of(value@),
    {
        if crate::text::str_eq(value, "required") {
            Some(Enforcement::Required)
        } else if crate::text::str_eq(value, "inventory") {
            Some(Enforcement::Inventory)
        } else {
            None
        }
    }
}

/// The contract of the official roots, fixed in the code: category and level
/// of obligation of each. The policy declares the roots so that the scope is
/// auditable; it cannot lower a production root.
pub open spec fn root_contract(root: Seq<char>) -> Option<(Seq<char>, Enforcement)> {
    if root == "src"@ {
        Some(("production"@, Enforcement::Required))
    } else if root == "runtime/pinker_rt/src"@ {
        Some(("production"@, Enforcement::Required))
    } else if root == "tests"@ {
        Some(("evidence"@, Enforcement::Inventory))
    } else if root == "apps"@ {
        Some(("example"@, Enforcement::Inventory))
    } else {
        None
    }
}

fn root_contract_exec(root: &str) -> (r: Option<(&'static str, Enforcement)>)
    ensures
        match root_contract(root@) {
            Some((c, e)) => r matches Some((x, f)) && x@ == c && f == e,
            None => r is None,
        },
{
    if crate::text::str_eq(root, "src") {
        Some(("production", Enforcement::Required))
    } else if crate::text::str_eq(root, "runtime/pinker_rt/src") {
        Some(("production", Enforcement::Required))
    } else if crate::text::str_eq(root, "tests") {
        Some(("evidence", Enforcement::Inventory))
    } else if crate::text::str_eq(root, "apps") {
        Some(("example", Enforcement::Inventory))
    } else {
        None
    }
}

/// Declared scope of an official root.
#[derive(Debug, Clone, PartialEq, Eq)]
pub struct ScopeRule {
    pub root: String,
    pub category: String,
    pub file_enforcement: Enforcement,
}

/// A narrow exception: one exact file path, with a reason and a review
/// condition.
#[derive(Debug, Clone, PartialEq, Eq)]
pub struct ExceptionRule {
    pub path: String,
    pub reason: String,
    pub review: String,
}

/// Where the responsibility of a region key that left the catalogue went.
#[derive(Debug, Clone, Copy, PartialEq, Eq, PartialOrd, Ord, Structural)]
pub enum DispositionKind {
    Moved,
    Split,
    Merged,
    Retired,
}

pub open spec fn disposition_name(k: DispositionKind) -> Seq<char> {
    match k {
        DispositionKind::Moved => "moved"@,
        DispositionKind::Split => "split"@,
        DispositionKind::Merged => "merged"@,
        DispositionKind::Retired => "retired"@,
    }
}

pub open spec fn disposition_of(v: Seq<char>) -> Option<DispositionKind> {
    if v == "moved"@ {
        Some(DispositionKind::Moved)
    } else if v == "split"@ {
        Some(DispositionKind::Split)
    } else if v == "merged"@ {
        Some(DispositionKind::Merged)
    } else if v == "retired"@ {
        Some(DispositionKind::Retired)
    } else {
        None
    }
}

impl DispositionKind {
    pub fn as_str(self) -> (s: &'static str)
        ensures
            s@ == disposition_name(self),
    {
        match self {
            DispositionKind::Moved => "moved",
            DispositionKind::Split => "split",
            DispositionKind::Merged => "merged",
            DispositionKind::Retired => "retired",
        }
    }

    pub fn parse(value: &str) -> (r: Option<DispositionKind>)
        ensures
            r == disposition_of(value@),
    {
        if crate::text::str_eq(value, "moved") {
            Some(DispositionKind::Moved)
        } else if crate::text::str_eq(value, "split") {
            Some(DispositionKind::Split)
        } else if crate::text::str_eq(value, "merged") {
            Some(DispositionKind::Merged)
        } else if crate::text::str_eq(value, "retired") {
            Some(DispositionKind::Retired)
        } else {
            None
        }
    }

    /// `moved`, `split` and `merged` must name where the responsibility went;
    /// `retired` must declare that it went nowhere.
    pub fn requires_targets(self) -> (b: bool)
        ensures
            b == (self != DispositionKind::Retired),
    {
        match self {
            DispositionKind::Retired => false,
            _ => true,
        }
    }
}

/// Versioned disposition of a key that existed and no longer does.
#[derive(Debug, Clone, PartialEq, Eq)]
pub struct DispositionRule {
    pub key: String,
    pub kind: DispositionKind,
    pub targets: Vec<String>,
    pub reason: String,
    pub review: String,
}

/// The authority, loaded and validated.
#[derive(Debug, Clone, PartialEq, Eq)]
pub struct CoveragePolicy {
    pub scopes: Vec<ScopeRule>,
    pub exceptions: Vec<ExceptionRule>,
    pub dispositions: Vec<DispositionRule>,
}

#[derive(Debug, Clone, PartialEq, Eq)]
pub enum PolicyError {
    Io { path: String, msg: String },
    Malformed { line: usize, msg: String },
    UnknownKind { line: usize, kind: String },
    MissingField { line: usize, field: String },
    BadSchema { line: usize, found: String },
    BroadException { line: usize, path: String, detail: String },
    DuplicateScope { root: String },
    DuplicateException { path: String },
    DuplicateDisposition { key: String },
    ScopeRootsMismatch { declared: Vec<String>, official: Vec<String> },
    /// The policy declared a category or level different from the contract
    /// fixed in the code for that root.
    ScopeContractMismatch {
        root: String,
        declared_category: String,
        declared_enforcement: &'static str,
        expected_category: &'static str,
        expected_enforcement: &'static str,
    },
}

pub struct ScopeView {
    pub root: Seq<char>,
    pub category: Seq<char>,
    pub file_enforcement: Enforcement,
}

pub struct ExceptionView {
    pub path: Seq<char>,
    pub reason: Seq<char>,
    pub review: Seq<char>,
}

pub struct DispositionView {
    pub key: Seq<char>,
    pub kind: DispositionKind,
    pub targets: Seq<Seq<char>>,
    pub reason: Seq<char>,
    pub review: Seq<char>,
}

#[verifier::ext_equal]
pub struct PolicyView {
    pub scopes: Seq<ScopeView>,
    pub exceptions: Seq<ExceptionView>,
    pub dispositions: Seq<DispositionView>,
}

pub enum PolicyErrorView {
    Io { path: Seq<char>, msg: Seq<char> },
    Malformed { line: usize, msg: Seq<char> },
    UnknownKind { line: usize, kind: Seq<char> },
    MissingField { line: usize, field: Seq<char> },
    BadSchema { line: usize, found: Seq<char> },
    BroadException { line: usize, path: Seq<char>, detail: Seq<char> },
    DuplicateScope { root: Seq<char> },
    DuplicateException { path: Seq<char> },
    DuplicateDisposition { key: Seq<char> },
    ScopeRootsMismatch { declared: Seq<Seq<char>>, official: Seq<Seq<char>> },
    ScopeContractMismatch {
        root: Seq<char>,
        declared_category: Seq<char>,
        declared_enforcement: Seq<char>,
        expected_category: Seq<char>,
        expected_enforcement: Seq<char>,
    },
}

pub open spec fn scope_view(s: ScopeRule) -> ScopeView {
    ScopeView { root: s.root@, category: s.category@, file_enforcement: s.file_enforcement }
}

pub open spec fn exception_view(e: ExceptionRule) -> ExceptionView {
    ExceptionView { path: e.path@, reason: e.reason@, review: e.review@ }
}

pub open spec fn disposition_view(d: DispositionRule) -> DispositionView {
    DispositionView {
        key: d.key@,
        kind: d.kind,
        targets: string_rows(d.targets@),
        reason: d.reason@,
        review: d.review@,
    }
}

pub open spec fn policy_view(p: CoveragePolicy) -> PolicyView {
    PolicyView {
        scopes: Seq::new(p.scopes@.len(), |i: int| scope_view(p.scopes@[i])),
        exceptions: Seq::new(p.exceptions@.len(), |i: int| exception_view(p.exceptions@[i])),
        dispositions: Seq::new(p.dispositions@.len(), |i: int| disposition_view(p.dispositions@[i])),
    }
}

pub open spec fn policy_error_view(e: PolicyError) -> PolicyErrorView {
    match e {
        PolicyError::Io { path, msg } => PolicyErrorView::Io { path: path@, msg: msg@ },
        PolicyError::Malformed { line, msg } => PolicyErrorView::Malformed { line, msg: msg@ },
        PolicyError::UnknownKind { line, kind } => PolicyErrorView::UnknownKind { line, kind: kind@ },
        PolicyError::MissingField { line, field } => PolicyErrorView::MissingField { line, field: field@ },
        PolicyError::BadSchema { line, found } => PolicyErrorView::BadSchema { line, found: found@ },
        PolicyError::BroadException { line, path, detail } => PolicyErrorView::BroadException {
            line,
            path: path@,
            detail: detail@,
        },
        PolicyError::DuplicateScope { root } => PolicyErrorView::DuplicateScope { root: root@ },
        PolicyError::DuplicateException { path } => PolicyErrorView::DuplicateException { path: path@ },
        PolicyError::DuplicateDisposition { key } => PolicyErrorView::DuplicateDisposition { key: key@ },
        PolicyError::ScopeRootsMismatch { declared, official } => PolicyErrorView::ScopeRootsMismatch {
            declared: string_rows(declared@),
            official: string_rows(official@),
        },
        PolicyError::ScopeContractMismatch {
            root,
            declared_category,
            declared_enforcement,
            expected_category,
            expected_enforcement,
        } => PolicyErrorView::ScopeContractMismatch {
            root: root@,
            declared_category: declared_category@,
            declared_enforcement: declared_enforcement@,
            expected_category: expected_category@,
            expected_enforcement: expected_enforcement@,
        },
    }
}

/// An empty, `.` or `..` path component.
pub open spec fn degenerate(part: Seq<char>) -> bool {
    part.len() == 0 || part == "."@ || part == ".."@
}

/// Why a path is not the name of one exact file, if it is not.
pub open spec fn broad_detail(path: Seq<char>) -> Option<Seq<char>> {
    if path.contains('*') || path.contains('?') || path.contains('[') {
        Some("curinga não é aceito: declare um arquivo por vez"@)
    } else if path.len() > 0 && path.last() == '/' {
        Some("diretório não é aceito: declare um arquivo por vez"@)
    } else if path.len() > 0 && path[0] == '/' {
        Some("caminho absoluto não é aceito"@)
    } else if path.contains('\\') {
        Some("separador inválido"@)
    } else if exists|i: int|
        0 <= i < split(path, seq!['/']).len() && degenerate(#[trigger] split(path, seq!['/'])[i]) {
        Some("componente de caminho degenerado"@)
    } else {
        None
    }
}

fn has_char(v: &Vec<char>, c: char) -> (b: bool)
    ensures
        b == v@.contains(c),
{
    let mut i: usize = 0;
    while i < v.len()
        invariant
            i <= v@.len(),
            forall|j: int| 0 <= j < i ==> v@[j] != c,
        decreases v.len() - i,
    {
        if v[i] == c {
            assert(v@[i as int] == c);
            return true;
        }
        i = i + 1;
    }
    assert(!v@.contains(c)) by {
        if v@.contains(c) {
            let j = choose|j: int| 0 <= j < v@.len() && v@[j] == c;
            assert(v@[j] != c);
        }
    }
    false
}

/// Why a path is not the name of one exact file, if it is not: an exception
/// can only name one exact file.
pub fn broad_exception_detail(path: &str) -> (r: Option<&'static str>)
    ensures
        match broad_detail(path@) {
            Some(d) => r matches Some(x) && x@ == d,
            None => r is None,
        },
{
    let v = chars_of(path);
    if has_char(&v, '*') || has_char(&v, '?') || has_char(&v, '[') {
        return Some("curinga não é aceito: declare um arquivo por vez");
    }
    if v.len() > 0 && v[v.len() - 1] == '/' {
        return Some("diretório não é aceito: declare um arquivo por vez");
    }
    if v.len() > 0 && v[0] == '/' {
        return Some("caminho absoluto não é aceito");
    }
    if has_char(&v, '\\') {
        return Some("separador inválido");
    }
    let parts = split_vec(&v, &crate::text::one_char('/'));
    let dot = chars_of(".");
    let dots = chars_of("..");
    let mut i: usize = 0;
    while i < parts.len()
        invariant
            i <= parts@.len(),
            v@ == path@,
            !(path@.contains('*') || path@.contains('?') || path@.contains('[')),
            !(path@.len() > 0 && path@.last() == '/'),
            !(path@.len() > 0 && path@[0] == '/'),
            !path@.contains('\\'),
            dot@ == "."@,
            dots@ == ".."@,
            parts@.len() == split(v@, seq!['/']).len(),
            forall|k: int| 0 <= k < parts@.len() ==> #[trigger] parts@[k]@ == split(v@, seq!['/'])[k],
            forall|k: int| 0 <= k < i ==> !degenerate(#[trigger] split(v@, seq!['/'])[k]),
        decreases parts.len() - i,
    {
        if parts[i].len() == 0 || crate::text::vec_eq(&parts[i], &dot) || crate::text::vec_eq(&parts[i], &dots) {
            assert(degenerate(split(v@, seq!['/'])[i as int]));
            return Some("componente de caminho degenerado");
        }
        i = i + 1;
    }
    assert(!(exists|k: int|
        0 <= k < split(path@, seq!['/']).len() && degenerate(#[trigger] split(path@, seq!['/'])[k])));
    None
}

/// A text field of a record that must be present and not blank.
pub open spec fn req_str(o: Seq<(Seq<char>, ValueView)>, field: Seq<char>, line: usize) -> Result<
    Seq<char>,
    PolicyErrorView,
> {
    match member_value(o, field) {
        Some(v) => match value_str(v) {
            Some(t) => if trim(t).len() > 0 {
                Ok(t)
            } else {
                Err(PolicyErrorView::MissingField { line, field })
            },
            None => Err(PolicyErrorView::MissingField { line, field }),
        },
        None => Err(PolicyErrorView::MissingField { line, field }),
    }
}

pub enum RecordView {
    Scope(ScopeView),
    Exception(ExceptionView),
    Disposition(DispositionView),
}

pub open spec fn scope_record(o: Seq<(Seq<char>, ValueView)>, line: usize) -> Result<ScopeView, PolicyErrorView> {
    let root = req_str(o, "root"@, line);
    let category = req_str(o, "category"@, line);
    let raw = req_str(o, "file_enforcement"@, line);
    if root is Err {
        Err(root->Err_0)
    } else if category is Err {
        Err(category->Err_0)
    } else if raw is Err {
        Err(raw->Err_0)
    } else if enforcement_of(raw->Ok_0) is None {
        Err(PolicyErrorView::MissingField { line, field: "file_enforcement"@ })
    } else {
        Ok(
            ScopeView {
                root: root->Ok_0,
                category: category->Ok_0,
                file_enforcement: enforcement_of(raw->Ok_0)->0,
            },
        )
    }
}

pub open spec fn exception_record(o: Seq<(Seq<char>, ValueView)>, line: usize) -> Result<
    ExceptionView,
    PolicyErrorView,
> {
    let path = req_str(o, "path"@, line);
    let reason = req_str(o, "reason"@, line);
    let review = req_str(o, "review"@, line);
    if path is Err {
        Err(path->Err_0)
    } else if broad_detail(path->Ok_0) is Some {
        Err(
            PolicyErrorView::BroadException {
                line,
                path: path->Ok_0,
                detail: broad_detail(path->Ok_0)->0,
            },
        )
    } else if reason is Err {
        Err(reason->Err_0)
    } else if review is Err {
        Err(review->Err_0)
    } else {
        Ok(ExceptionView { path: path->Ok_0, reason: reason->Ok_0, review: review->Ok_0 })
    }
}

/// The `to` list of a disposition: its texts, or none when absent or not a
/// list of texts.
pub open spec fn targets_of(o: Seq<(Seq<char>, ValueView)>) -> Seq<Seq<char>> {
    match member_value(o, "to"@) {
        Some(v) => match value_str_array(v) {
            Some(ts) => ts,
            None => Seq::empty(),
        },
        None => Seq::empty(),
    }
}

pub open spec fn disposition_record(o: Seq<(Seq<char>, ValueView)>, line: usize) -> Result<
    DispositionView,
    PolicyErrorView,
> {
    let key = req_str(o, "key"@, line);
    let raw = req_str(o, "disposition"@, line);
    let kind = disposition_of(raw->Ok_0);
    let targets = targets_of(o);
    let needs = kind->0 != DispositionKind::Retired;
    let reason = req_str(o, "reason"@, line);
    let review = req_str(o, "review"@, line);
    if key is Err {
        Err(key->Err_0)
    } else if raw is Err {
        Err(raw->Err_0)
    } else if kind is None {
        Err(PolicyErrorView::MissingField { line, field: "disposition"@ })
    } else if needs && targets.len() == 0 {
        Err(PolicyErrorView::MissingField { line, field: "to"@ })
    } else if !needs && targets.len() > 0 {
        Err(PolicyErrorView::MissingField { line, field: "to"@ })
    } else if reason is Err {
        Err(reason->Err_0)
    } else if review is Err {
        Err(review->Err_0)
    } else {
        Ok(
            DispositionView {
                key: key->Ok_0,
                kind: kind->0,
                targets,
                reason: reason->Ok_0,
                review: review->Ok_0,
            },
        )
    }
}

/// The decimal text of a signed integer.
pub open spec fn signed_decimal(n: i64) -> Seq<char> {
    if n < 0 {
        seq!['-'] + decimal((-(n as int)) as nat)
    } else {
        decimal(n as nat)
    }
}

/// One non-blank line of the authority.
pub open spec fn record_line(t: Seq<char>, line: usize) -> Result<RecordView, PolicyErrorView> {
    match object_of(t) {
        Err(p) => Err(PolicyErrorView::Malformed { line, msg: fault_msg(p) }),
        Ok(o) => {
            let schema = match member_value(o, "schema"@) {
                Some(v) => value_int(v),
                None => None,
            };
            let kind = req_str(o, "kind"@, line);
            if schema is None {
                Err(PolicyErrorView::MissingField { line, field: "schema"@ })
            } else if schema->0 != 1 {
                Err(PolicyErrorView::BadSchema { line, found: signed_decimal(schema->0) })
            } else if kind is Err {
                Err(kind->Err_0)
            } else if kind->Ok_0 == "scope"@ {
                match scope_record(o, line) {
                    Ok(v) => Ok(RecordView::Scope(v)),
                    Err(e) => Err(e),
                }
            } else if kind->Ok_0 == "exception"@ {
                match exception_record(o, line) {
                    Ok(v) => Ok(RecordView::Exception(v)),
                    Err(e) => Err(e),
                }
            } else if kind->Ok_0 == "disposition"@ {
                match disposition_record(o, line) {
                    Ok(v) => Ok(RecordView::Disposition(v)),
                    Err(e) => Err(e),
                }
            } else {
                Err(PolicyErrorView::UnknownKind { line, kind: kind->Ok_0 })
            }
        },
    }
}

/// The authority `p` with one more record.
pub open spec fn with_record(p: PolicyView, r: RecordView) -> PolicyView {
    match r {
        RecordView::Scope(s) => PolicyView { scopes: p.scopes.push(s), ..p },
        RecordView::Exception(x) => PolicyView { exceptions: p.exceptions.push(x), ..p },
        RecordView::Disposition(d) => PolicyView { dispositions: p.dispositions.push(d), ..p },
    }
}

/// The records of the lines from `i` on, added to `p`.
pub open spec fn records_from(ls: Seq<Seq<char>>, i: int, p: PolicyView) -> Result<PolicyView, PolicyErrorView>
    decreases ls.len() - i,
{
    if i < 0 || i >= ls.len() {
        Ok(p)
    } else if trim(ls[i]).len() == 0 {
        records_from(ls, i + 1, p)
    } else {
        match record_line(trim(ls[i]), (i + 1) as usize) {
            Err(e) => Err(e),
            Ok(r) => records_from(ls, i + 1, with_record(p, r)),
        }
    }
}

fn owned(v: &str) -> (s: String)
    ensures
        s@ == v@,
{
    v.to_owned()
}

fn is_blank(t: &str) -> (b: bool)
    ensures
        b == (trim(t@).len() == 0),
{
    let v = chars_of(t);
    let w = trimmed(&v, 0, v.len());
    assert(v@.subrange(0, v@.len() as int) =~= v@);
    w.len() == 0
}

/// A text field of a record that must be present and not blank.
pub fn required_str(object: &JsonObject, field: &str, line: usize) -> (r: Result<String, PolicyError>)
    ensures
        match req_str(object_view(*object), field@, line) {
            Ok(t) => r matches Ok(x) && x@ == t,
            Err(e) => r matches Err(x) && policy_error_view(x) == e,
        },
{
    let missing = PolicyError::MissingField { line, field: owned(field) };
    match object.get(field) {
        Some(v) => match v.as_str() {
            Some(t) => {
                if is_blank(t) {
                    Err(missing)
                } else {
                    Ok(owned(t))
                }
            },
            None => Err(missing),
        },
        None => Err(missing),
    }
}

fn parse_scope(object: &JsonObject, line: usize) -> (r: Result<ScopeRule, PolicyError>)
    ensures
        match scope_record(object_view(*object), line) {
            Ok(v) => r matches Ok(x) && scope_view(x) == v,
            Err(e) => r matches Err(x) && policy_error_view(x) == e,
        },
{
    let root = required_str(object, "root", line)?;
    let category = required_str(object, "category", line)?;
    let raw = required_str(object, "file_enforcement", line)?;
    match Enforcement::parse(raw.as_str()) {
        Some(file_enforcement) => Ok(ScopeRule { root, category, file_enforcement }),
        None => Err(PolicyError::MissingField { line, field: owned("file_enforcement") }),
    }
}

fn parse_exception(object: &JsonObject, line: usize) -> (r: Result<ExceptionRule, PolicyError>)
    ensures
        match exception_record(object_view(*object), line) {
            Ok(v) => r matches Ok(x) && exception_view(x) == v,
            Err(e) => r matches Err(x) && policy_error_view(x) == e,
        },
{
    let path = required_str(object, "path", line)?;
    match broad_exception_detail(path.as_str()) {
        Some(detail) => {
            return Err(PolicyError::BroadException { line, path, detail: owned(detail) });
        },
        None => {},
    }
    let reason = required_str(object, "reason", line)?;
    let review = required_str(object, "review", line)?;
    Ok(ExceptionRule { path, reason, review })
}

fn parse_disposition(object: &JsonObject, line: usize) -> (r: Result<DispositionRule, PolicyError>)
    ensures
        match disposition_record(object_view(*object), line) {
            Ok(v) => r matches Ok(x) && disposition_view(x) == v,
            Err(e) => r matches Err(x) && policy_error_view(x) == e,
        },
{
    let key = required_str(object, "key", line)?;
    let raw = required_str(object, "disposition", line)?;
    let kind = match DispositionKind::parse(raw.as_str()) {
        Some(k) => k,
        None => {
            return Err(PolicyError::MissingField { line, field: owned("disposition") });
        },
    };
    let targets: Vec<String> = match object.get("to") {
        Some(v) => match v.as_str_array() {
            Some(ts) => ts,
            None => Vec::new(),
        },
        None => Vec::new(),
    };
    assert(string_rows(targets@) == targets_of(object_view(*object))) by {
        if string_rows(targets@).len() == 0 {
            assert(string_rows(targets@) =~= Seq::<Seq<char>>::empty());
        }
    }
    if kind.requires_targets() && targets.len() == 0 {
        return Err(PolicyError::MissingField { line, field: owned("to") });
    }
    if !kind.requires_targets() && targets.len() > 0 {
        return Err(PolicyError::MissingField { line, field: owned("to") });
    }
    let reason = required_str(object, "reason", line)?;
    let review = required_str(object, "review", line)?;
    Ok(DispositionRule { key, kind, targets, reason, review })
}

fn signed_text(n: i64) -> (s: String)
    ensures
        s@ == signed_decimal(n),
{
    let mut v: Vec<char> = Vec::new();
    if n < 0 {
        v.push('-');
        let m: u64 = if n == i64::MIN {
            0x8000_0000_0000_0000
        } else {
            (-n) as u64
        };
        assert(m as int == -(n as int));
        push_decimal(&mut v, m);
    } else {
        push_decimal(&mut v, n as u64);
    }
    assert(v@ =~= signed_decimal(n));
    string_from(&v)
}

enum Record {
    Scope(ScopeRule),
    Exception(ExceptionRule),
    Disposition(DispositionRule),
}

spec fn record_view(r: Record) -> RecordView {
    match r {
        Record::Scope(s) => RecordView::Scope(scope_view(s)),
        Record::Exception(e) => RecordView::Exception(exception_view(e)),
        Record::Disposition(d) => RecordView::Disposition(disposition_view(d)),
    }
}

fn parse_record(t: &str, line: usize) -> (r: Result<Record, PolicyError>)
    ensures
        match record_line(t@, line) {
            Ok(v) => r matches Ok(x) && record_view(x) == v,
            Err(e) => r matches Err(x) && policy_error_view(x) == e,
        },
{
    let object = match parse_object(t) {
        Ok(o) => o,
        Err(err) => {
            return Err(PolicyError::Malformed { line, msg: err.msg });
        },
    };
    let schema = match object.get("schema") {
        Some(v) => v.as_int(),
        None => None,
    };
    let schema = match schema {
        Some(n) => n,
        None => {
            return Err(PolicyError::MissingField { line, field: owned("schema") });
        },
    };
    if schema != POLICY_SCHEMA {
        return Err(PolicyError::BadSchema { line, found: signed_text(schema) });
    }
    let kind = required_str(&object, "kind", line)?;
    let k = kind.as_str();
    if crate::text::str_eq(k, "scope") {
        Ok(Record::Scope(parse_scope(&object, line)?))
    } else if crate::text::str_eq(k, "exception") {
        Ok(Record::Exception(parse_exception(&object, line)?))
    } else if crate::text::str_eq(k, "disposition") {
        Ok(Record::Disposition(parse_disposition(&object, line)?))
    } else {
        Err(PolicyError::UnknownKind { line, kind })
    }
}

/// The first text of a list, from position `i` on, that already occurred
/// before it.
pub open spec fn first_repeat(ks: Seq<Seq<char>>, i: int) -> Option<Seq<char>>
    decreases ks.len() - i,
{
    if i < 0 || i >= ks.len() {
        None
    } else if ks.take(i).contains(ks[i]) {
        Some(ks[i])
    } else {
        first_repeat(ks, i + 1)
    }
}

/// The official roots, as the scan declares them.
pub open spec fn official_roots() -> Seq<Seq<char>> {
    seq!["src"@, "runtime/pinker_rt/src"@, "tests"@, "apps"@]
}

pub open spec fn scope_roots(ss: Seq<ScopeView>) -> Seq<Seq<char>> {
    Seq::new(ss.len(), |i: int| ss[i].root)
}

/// The first scope that disagrees with the contract of its root.
pub open spec fn contract_break(ss: Seq<ScopeView>, i: int) -> Option<PolicyErrorView>
    decreases ss.len() - i,
{
    if i < 0 || i >= ss.len() {
        None
    } else {
        let s = ss[i];
        let (cat, enf) = match root_contract(s.root) {
            Some((c, e)) => (c, e),
            None => (Seq::empty(), Enforcement::Required),
        };
        if s.category != cat || s.file_enforcement != enf {
            Some(
                PolicyErrorView::ScopeContractMismatch {
                    root: s.root,
                    declared_category: s.category,
                    declared_enforcement: enforcement_name(s.file_enforcement),
                    expected_category: cat,
                    expected_enforcement: enforcement_name(enf),
                },
            )
        } else {
            contract_break(ss, i + 1)
        }
    }
}

/// The declared roots are exactly the official ones, as sets.
pub open spec fn roots_match(roots: Seq<Seq<char>>) -> bool {
    &&& forall|i: int| 0 <= i < official_roots().len() ==> roots.contains(#[trigger] official_roots()[i])
    &&& forall|i: int| 0 <= i < roots.len() ==> official_roots().contains(#[trigger] roots[i])
}

/// What the validation of a loaded authority refuses first, if anything.
pub open spec fn policy_fault(p: PolicyView) -> Option<PolicyErrorView> {
    let roots = scope_roots(p.scopes);
    let paths = Seq::new(p.exceptions.len(), |i: int| p.exceptions[i].path);
    let keys = Seq::new(p.dispositions.len(), |i: int| p.dispositions[i].key);
    if first_repeat(roots, 0) is Some {
        Some(PolicyErrorView::DuplicateScope { root: first_repeat(roots, 0)->0 })
    } else if !roots_match(roots) {
        Some(
            PolicyErrorView::ScopeRootsMismatch {
                declared: roots.sort_by(text_le()),
                official: official_roots().sort_by(text_le()),
            },
        )
    } else if contract_break(p.scopes, 0) is Some {
        contract_break(p.scopes, 0)
    } else if first_repeat(paths, 0) is Some {
        Some(PolicyErrorView::DuplicateException { path: first_repeat(paths, 0)->0 })
    } else if first_repeat(keys, 0) is Some {
        Some(PolicyErrorView::DuplicateDisposition { key: first_repeat(keys, 0)->0 })
    } else {
        None
    }
}

pub open spec fn empty_policy() -> PolicyView {
    PolicyView { scopes: Seq::empty(), exceptions: Seq::empty(), dispositions: Seq::empty() }
}

/// The authority a JSONL text declares, or the first refusal.
pub open spec fn policy_of(text: Seq<char>) -> Result<PolicyView, PolicyErrorView> {
    match records_from(lines(text), 0, empty_policy()) {
        Err(e) => Err(e),
        Ok(p) => match policy_fault(p) {
            Some(e) => Err(e),
            None => Ok(p),
        },
    }
}

fn first_repeat_exec(ks: &Vec<Vec<char>>) -> (r: Option<usize>)
    ensures
        match first_repeat(rows(ks@), 0) {
            Some(k) => r matches Some(i) && i < ks@.len() && ks@[i as int]@ == k,
            None => r is None,
        },
{
    let ghost kv = rows(ks@);
    let mut i: usize = 0;
    while i < ks.len()
        invariant
            i <= ks@.len(),
            kv == rows(ks@),
            first_repeat(kv, 0) == first_repeat(kv, i as int),
        decreases ks.len() - i,
    {
        let mut seen = false;
        let mut j: usize = 0;
        while j < i
            invariant
                j <= i < ks@.len(),
                kv == rows(ks@),
                seen == exists|m: int| 0 <= m < j && kv[m] == kv[i as int],
            decreases i - j,
        {
            assert(kv[j as int] == ks@[j as int]@);
            assert(kv[i as int] == ks@[i as int]@);
            if crate::text::vec_eq(&ks[j], &ks[i]) {
                seen = true;
            }
            j = j + 1;
        }
        proof {
            if seen {
                let m = choose|m: int| 0 <= m < i && kv[m] == kv[i as int];
                assert(kv.take(i as int)[m] == kv[i as int]);
            } else {
                assert(!kv.take(i as int).contains(kv[i as int])) by {
                    if kv.take(i as int).contains(kv[i as int]) {
                        let m = choose|m: int| 0 <= m < i && kv.take(i as int)[m] == kv[i as int];
                        assert(kv[m] == kv[i as int]);
                    }
                }
            }
        }
        if seen {
            return Some(i);
        }
        i = i + 1;
    }
    None
}

fn texts_of_scopes(ss: &Vec<ScopeRule>) -> (r: Vec<Vec<char>>)
    ensures
        rows(r@) == scope_roots(Seq::new(ss@.len(), |i: int| scope_view(ss@[i]))),
{
    let mut r: Vec<Vec<char>> = Vec::new();
    let mut i: usize = 0;
    while i < ss.len()
        invariant
            i <= ss@.len(),
            r@.len() == i,
            forall|k: int| 0 <= k < i ==> #[trigger] r@[k]@ == ss@[k].root@,
        decreases ss.len() - i,
    {
        r.push(chars_of(ss[i].root.as_str()));
        i = i + 1;
    }
    assert(rows(r@) =~= scope_roots(Seq::new(ss@.len(), |i: int| scope_view(ss@[i]))));
    r
}

fn strings_of(v: &Vec<Vec<char>>) -> (r: Vec<String>)
    ensures
        string_rows(r@) == rows(v@),
{
    let mut r: Vec<String> = Vec::new();
    let mut i: usize = 0;
    while i < v.len()
        invariant
            i <= v@.len(),
            r@.len() == i,
            forall|k: int| 0 <= k < i ==> #[trigger] r@[k]@ == v@[k]@,
        decreases v.len() - i,
    {
        r.push(string_from(v[i].as_slice()));
        i = i + 1;
    }
    assert(string_rows(r@) =~= rows(v@));
    r
}

fn listed(ks: &Vec<Vec<char>>, k: &Vec<char>) -> (b: bool)
    ensures
        b == rows(ks@).contains(k@),
{
    let mut i: usize = 0;
    while i < ks.len()
        invariant
            i <= ks@.len(),
            forall|j: int| 0 <= j < i ==> rows(ks@)[j] != k@,
        decreases ks.len() - i,
    {
        if crate::text::vec_eq(&ks[i], k) {
            assert(rows(ks@)[i as int] == k@);
            return true;
        }
        i = i + 1;
    }
    assert(!rows(ks@).contains(k@)) by {
        if rows(ks@).contains(k@) {
            let j = choose|j: int| 0 <= j < rows(ks@).len() && rows(ks@)[j] == k@;
            assert(rows(ks@)[j] != k@);
        }
    }
    false
}

fn official_root_texts() -> (r: Vec<Vec<char>>)
    ensures
        rows(r@) == official_roots(),
{
    let mut r: Vec<Vec<char>> = Vec::new();
    r.push(chars_of("src"));
    r.push(chars_of("runtime/pinker_rt/src"));
    r.push(chars_of("tests"));
    r.push(chars_of("apps"));
    assert(rows(r@) =~= official_roots());
    r
}

/// Index of the first scope of `root`, from `i` on.
pub open spec fn first_scope(ss: Seq<ScopeView>, root: Seq<char>, i: int) -> Option<int>
    decreases ss.len() - i,
{
    if i < 0 || i >= ss.len() {
        None
    } else if ss[i].root == root {
        Some(i)
    } else {
        first_scope(ss, root, i + 1)
    }
}

/// Index of the first exception of `path`, from `i` on.
pub open spec fn first_exception(es: Seq<ExceptionView>, path: Seq<char>, i: int) -> Option<int>
    decreases es.len() - i,
{
    if i < 0 || i >= es.len() {
        None
    } else if es[i].path == path {
        Some(i)
    } else {
        first_exception(es, path, i + 1)
    }
}

fn add_record(policy: &mut CoveragePolicy, rec: Record)
    ensures
        policy_view(*final(policy)) == with_record(policy_view(*old(policy)), record_view(rec)),
{
    let ghost before = policy_view(*policy);
    match rec {
        Record::Scope(sc) => {
            policy.scopes.push(sc);
            assert(policy_view(*policy).scopes =~= before.scopes.push(scope_view(sc)));
            assert(policy_view(*policy).exceptions =~= before.exceptions);
            assert(policy_view(*policy).dispositions =~= before.dispositions);
        },
        Record::Exception(x) => {
            policy.exceptions.push(x);
            assert(policy_view(*policy).scopes =~= before.scopes);
            assert(policy_view(*policy).exceptions =~= before.exceptions.push(exception_view(x)));
            assert(policy_view(*policy).dispositions =~= before.dispositions);
        },
        Record::Disposition(d) => {
            policy.dispositions.push(d);
            assert(policy_view(*policy).scopes =~= before.scopes);
            assert(policy_view(*policy).exceptions =~= before.exceptions);
            assert(policy_view(*policy).dispositions =~= before.dispositions.push(disposition_view(d)));
        },
    }
}

impl CoveragePolicy {
    /// Validates a loaded authority.
    pub fn validate(&self) -> (r: Result<(), PolicyError>)
        ensures
            match policy_fault(policy_view(*self)) {
                Some(e) => r matches Err(x) && policy_error_view(x) == e,
                None => r is Ok,
            },
    {
        let ghost pv = policy_view(*self);
        let roots = texts_of_scopes(&self.scopes);
        assert(scope_roots(pv.scopes) == rows(roots@));
        match first_repeat_exec(&roots) {
            Some(i) => {
                return Err(PolicyError::DuplicateScope { root: string_from(roots[i].as_slice()) });
            },
            None => {},
        }
        let official = official_root_texts();
        let mut every_official = true;
        let mut i: usize = 0;
        while i < official.len()
            invariant
                i <= official@.len(),
                rows(official@) == official_roots(),
                every_official == forall|k: int| 0 <= k < i ==> rows(roots@).contains(#[trigger] official_roots()[k]),
            decreases official.len() - i,
        {
            assert(official_roots()[i as int] == official@[i as int]@);
            if !listed(&roots, &official[i]) {
                every_official = false;
            }
            i = i + 1;
        }
        let mut every_declared = true;
        let mut j: usize = 0;
        while j < roots.len()
            invariant
                j <= roots@.len(),
                rows(official@) == official_roots(),
                every_declared == forall|k: int| 0 <= k < j ==> official_roots().contains(#[trigger] rows(roots@)[k]),
            decreases roots.len() - j,
        {
            assert(rows(roots@)[j as int] == roots@[j as int]@);
            if !listed(&official, &roots[j]) {
                every_declared = false;
            }
            j = j + 1;
        }
        if !(every_official && every_declared) {
            let declared = crate::text::sort_texts(&roots);
            let off = crate::text::sort_texts(&official);
            return Err(
                PolicyError::ScopeRootsMismatch { declared: strings_of(&declared), official: strings_of(&off) },
            );
        }
        let mut k: usize = 0;
        assert(pv.scopes.len() == self.scopes@.len());
        while k < self.scopes.len()
            invariant
                k <= self.scopes@.len(),
                pv == policy_view(*self),
                first_repeat(scope_roots(pv.scopes), 0) is None,
                roots_match(scope_roots(pv.scopes)),
                contract_break(pv.scopes, 0) == contract_break(pv.scopes, k as int),
            decreases self.scopes.len() - k,
        {
            let scope = &self.scopes[k];
            assert(pv.scopes[k as int] == scope_view(*scope));
            let (expected_category, expected_enforcement) = match root_contract_exec(scope.root.as_str()) {
                Some((c, e)) => (c, e),
                None => ("", Enforcement::Required),
            };
            proof {
                reveal_strlit("");
                assert(""@ =~= Seq::<char>::empty());
            }
            if !crate::text::str_eq(scope.category.as_str(), expected_category)
                || scope.file_enforcement != expected_enforcement {
                return Err(
                    PolicyError::ScopeContractMismatch {
                        root: scope.root.clone(),
                        declared_category: scope.category.clone(),
                        declared_enforcement: scope.file_enforcement.as_str(),
                        expected_category,
                        expected_enforcement: expected_enforcement.as_str(),
                    },
                );
            }
            k = k + 1;
        }
        let mut paths: Vec<Vec<char>> = Vec::new();
        let mut e: usize = 0;
        while e < self.exceptions.len()
            invariant
                e <= self.exceptions@.len(),
                paths@.len() == e,
                forall|m: int| 0 <= m < e ==> #[trigger] paths@[m]@ == self.exceptions@[m].path@,
            decreases self.exceptions.len() - e,
        {
            paths.push(chars_of(self.exceptions[e].path.as_str()));
            e = e + 1;
        }
        assert(rows(paths@) =~= Seq::new(pv.exceptions.len(), |i: int| pv.exceptions[i].path));
        match first_repeat_exec(&paths) {
            Some(i) => {
                return Err(PolicyError::DuplicateException { path: string_from(paths[i].as_slice()) });
            },
            None => {},
        }
        let mut keys: Vec<Vec<char>> = Vec::new();
        let mut d: usize = 0;
        while d < self.dispositions.len()
            invariant
                d <= self.dispositions@.len(),
                keys@.len() == d,
                forall|m: int| 0 <= m < d ==> #[trigger] keys@[m]@ == self.dispositions@[m].key@,
            decreases self.dispositions.len() - d,
        {
            keys.push(chars_of(self.dispositions[d].key.as_str()));
            d = d + 1;
        }
        assert(rows(keys@) =~= Seq::new(pv.dispositions.len(), |i: int| pv.dispositions[i].key));
        match first_repeat_exec(&keys) {
            Some(i) => {
                return Err(PolicyError::DuplicateDisposition { key: string_from(keys[i].as_slice()) });
            },
            None => {},
        }
        Ok(())
    }

    /// Reads the JSONL text of the authority. Every refusal is explicit: no
    /// record is silently ignored.
    pub fn parse(text: &str) -> (r: Result<CoveragePolicy, PolicyError>)
        ensures
            match policy_of(text@) {
                Ok(p) => r matches Ok(x) && policy_view(x) == p,
                Err(e) => r matches Err(x) && policy_error_view(x) == e,
            },
    {
        let chars = chars_of(text);
        let ls = split_lines(&chars);
        let ghost all = lines(text@);
        let mut policy = CoveragePolicy { scopes: Vec::new(), exceptions: Vec::new(), dispositions: Vec::new() };
        assert(policy_view(policy) =~= empty_policy());
        let mut i: usize = 0;
        while i < ls.len()
            invariant
                i <= ls@.len(),
                all == lines(text@),
                ls@.len() == all.len(),
                forall|k: int| 0 <= k < ls@.len() ==> #[trigger] ls@[k]@ == all[k],
                records_from(all, 0, empty_policy()) == records_from(all, i as int, policy_view(policy)),
            decreases ls.len() - i,
        {
            assert(ls@[i as int]@ == all[i as int]);
            let t = trimmed(&ls[i], 0, ls[i].len());
            assert(ls@[i as int]@.subrange(0, ls@[i as int]@.len() as int) =~= ls@[i as int]@);
            if t.len() > 0 {
                let ts = string_from(&t);
                let rec = parse_record(ts.as_str(), i + 1)?;
                add_record(&mut policy, rec);
            }
            i = i + 1;
        }
        policy.validate()?;
        Ok(policy)
    }

    /// The declared scope of an official root.
    pub fn scope(&self, root: &str) -> (r: Option<&ScopeRule>)
        ensures
            match first_scope(policy_view(*self).scopes, root@, 0) {
                Some(k) => r matches Some(s) && 0 <= k < self.scopes@.len() && *s == self.scopes@[k],
                None => r is None,
            },
    {
        let ghost ss = policy_view(*self).scopes;
        let mut i: usize = 0;
        while i < self.scopes.len()
            invariant
                i <= self.scopes@.len(),
                ss == policy_view(*self).scopes,
                first_scope(ss, root@, 0) == first_scope(ss, root@, i as int),
            decreases self.scopes.len() - i,
        {
            assert(ss[i as int] == scope_view(self.scopes@[i as int]));
            if crate::text::str_eq(self.scopes[i].root.as_str(), root) {
                return Some(&self.scopes[i]);
            }
            i = i + 1;
        }
        None
    }

    /// The narrow exception declared for an exact path.
    pub fn exception(&self, path: &str) -> (r: Option<&ExceptionRule>)
        ensures
            match first_exception(policy_view(*self).exceptions, path@, 0) {
                Some(k) => r matches Some(e) && 0 <= k < self.exceptions@.len() && *e == self.exceptions@[k],
                None => r is None,
            },
    {
        let ghost es = policy_view(*self).exceptions;
        let mut i: usize = 0;
        while i < self.exceptions.len()
            invariant
                i <= self.exceptions@.len(),
                es == policy_view(*self).exceptions,
                first_exception(es, path@, 0) == first_exception(es, path@, i as int),
            decreases self.exceptions.len() - i,
        {
            assert(es[i as int] == exception_view(self.exceptions@[i as int]));
            if crate::text::str_eq(self.exceptions[i].path.as_str(), path) {
                return Some(&self.exceptions[i]);
            }
            i = i + 1;
        }
        None
    }

    /// The disposition declared for a region key.
    pub fn disposition(&self, key: &str) -> (r: Option<&DispositionRule>)
        ensures
            r matches Some(d) ==> d.key@ == key@ && exists|i: int|
                0 <= i < self.dispositions@.len() && self.dispositions@[i] == *d && forall|j: int|
                    0 <= j < i ==> self.dispositions@[j].key@ != key@,
            r is None ==> forall|i: int| 0 <= i < self.dispositions@.len() ==> self.dispositions@[i].key@ != key@,
    {
        let mut i: usize = 0;
        while i < self.dispositions.len()
            invariant
                i <= self.dispositions@.len(),
                forall|j: int| 0 <= j < i ==> self.dispositions@[j].key@ != key@,
            decreases self.dispositions.len() - i,
        {
            if crate::text::str_eq(self.dispositions[i].key.as_str(), key) {
                return Some(&self.dispositions[i]);
            }
            i = i + 1;
        }
        None
    }
}


/// A 1-indexed, inclusive interval of lines.
#[derive(Debug, Clone, Copy, PartialEq, Eq, PartialOrd, Ord, Structural)]
pub struct LineInterval {
    pub start: usize,
    pub end: usize,
}

impl LineInterval {
    /// Number of lines, counting an inverted interval as one line.
    pub fn len(self) -> (n: usize)
        requires
            self.end >= self.start ==> self.end - self.start < usize::MAX,
        ensures
            n == if self.end >= self.start { self.end - self.start + 1 } else { 1 },
    {
        let d = if self.end >= self.start { self.end - self.start } else { 0 };
        d + 1
    }

    pub fn is_empty(self) -> (b: bool)
        ensures
            b == (self.end < self.start),
    {
        self.end < self.start
    }
}

/// The order of the derived `Ord` of `LineInterval`: by start, then by end.
pub open spec fn interval_le() -> spec_fn(LineInterval, LineInterval) -> bool {
    |a: LineInterval, b: LineInterval| a.start < b.start || (a.start == b.start && a.end <= b.end)
}

pub proof fn lemma_interval_le_total_ordering()
    ensures
        vstd::relations::total_ordering(interval_le()),
{
}

/// An interval that merging keeps: not inverted, and starting at a line.
pub open spec fn kept_interval() -> spec_fn(LineInterval) -> bool {
    |i: LineInterval| !(i.end < i.start) && i.start > 0
}

pub open spec fn saturating_succ(n: usize) -> usize {
    if n == usize::MAX { n } else { (n + 1) as usize }
}

/// Merges a sorted sequence of intervals, left to right: an interval that
/// starts at most one line after the last merged one extends it.
pub open spec fn merge_sorted(s: Seq<LineInterval>) -> Seq<LineInterval>
    decreases s.len(),
{
    if s.len() == 0 {
        Seq::empty()
    } else {
        let acc = merge_sorted(s.drop_last());
        let x = s.last();
        if acc.len() > 0 && x.start <= saturating_succ(acc.last().end) {
            let last = acc.last();
            let end = if last.end >= x.end { last.end } else { x.end };
            acc.update(acc.len() - 1, LineInterval { start: last.start, end })
        } else {
            acc.push(x)
        }
    }
}

/// The canonical covering of a list of intervals: empty ones and those that
/// start at line 0 dropped, sorted, overlapping or adjacent ones united.
pub open spec fn merged(v: Seq<LineInterval>) -> Seq<LineInterval> {
    merge_sorted(v.filter(kept_interval()).sort_by(interval_le()))
}

fn insert_interval(v: &mut Vec<LineInterval>, x: LineInterval)
    requires
        vstd::relations::sorted_by(old(v)@, interval_le()),
    ensures
        vstd::relations::sorted_by(final(v)@, interval_le()),
        final(v)@.to_multiset() == old(v)@.to_multiset().insert(x),
{
    broadcast use vstd::seq_lib::group_to_multiset_ensures;

    let ghost s = v@;
    let mut k = v.len();
    while k > 0 && (x.start < v[k - 1].start || (x.start == v[k - 1].start && x.end < v[k - 1].end))
        invariant
            k <= v@.len(),
            s == v@,
            forall|j: int| k <= j < s.len() ==> x.start < (#[trigger] s[j]).start || (x.start == s[j].start
                && x.end < s[j].end),
        decreases k,
    {
        k = k - 1;
    }
    v.insert(k, x);
    proof {
        let t = v@;
        assert(t =~= s.insert(k as int, x));
        let leq = interval_le();
        assert forall|a: int, b: int| 0 <= a < b < t.len() implies #[trigger] leq(t[a], t[b]) by {
            if b < k {
                assert(leq(s[a], s[b]));
            } else if b == k {
                if a < k - 1 {
                    assert(leq(s[a], s[k - 1]));
                }
            } else if a < k {
                assert(leq(s[a], s[b - 1]));
            } else if a > k {
                assert(leq(s[a - 1], s[b - 1]));
            }
        }
    }
}

fn sort_intervals(v: &Vec<LineInterval>) -> (r: Vec<LineInterval>)
    ensures
        r@ == v@.sort_by(interval_le()),
{
    broadcast use vstd::seq_lib::group_to_multiset_ensures;

    let mut sorted: Vec<LineInterval> = Vec::new();
    let mut i: usize = 0;
    assert(v@.take(0) =~= Seq::<LineInterval>::empty());
    while i < v.len()
        invariant
            i <= v@.len(),
            vstd::relations::sorted_by(sorted@, interval_le()),
            sorted@.to_multiset() == v@.take(i as int).to_multiset(),
        decreases v.len() - i,
    {
        let x = v[i];
        assert(v@.take(i + 1) =~= v@.take(i as int).push(x));
        proof {
            vstd::seq_lib::to_multiset_build(v@.take(i as int), x);
        }
        insert_interval(&mut sorted, x);
        i = i + 1;
    }
    proof {
        assert(v@.take(i as int) =~= v@);
        lemma_interval_le_total_ordering();
        v@.lemma_sort_by_ensures(interval_le());
        vstd::seq_lib::lemma_sorted_unique(sorted@, v@.sort_by(interval_le()), interval_le());
    }
    sorted
}

/// Unites overlapping or adjacent intervals into a sorted canonical covering.
pub fn merge_intervals(intervals: Vec<LineInterval>) -> (r: Vec<LineInterval>)
    ensures
        r@ == merged(intervals@),
{
    let mut kept: Vec<LineInterval> = Vec::new();
    let mut i: usize = 0;
    assert(intervals@.take(0) =~= Seq::<LineInterval>::empty());
    proof {
        reveal(Seq::filter);
    }
    while i < intervals.len()
        invariant
            i <= intervals@.len(),
            kept@ == intervals@.take(i as int).filter(kept_interval()),
        decreases intervals.len() - i,
    {
        let x = intervals[i];
        assert(intervals@.take(i + 1) =~= intervals@.take(i as int).push(x));
        proof {
            intervals@.take(i as int).lemma_filter_push(x, kept_interval());
        }
        if !x.is_empty() && x.start > 0 {
            kept.push(x);
        }
        i = i + 1;
    }
    assert(intervals@.take(i as int) =~= intervals@);
    let sorted = sort_intervals(&kept);
    let mut out: Vec<LineInterval> = Vec::new();
    let mut j: usize = 0;
    assert(sorted@.take(0) =~= Seq::<LineInterval>::empty());
    while j < sorted.len()
        invariant
            j <= sorted@.len(),
            out@ == merge_sorted(sorted@.take(j as int)),
        decreases sorted.len() - j,
    {
        let x = sorted[j];
        assert(sorted@.take(j + 1).drop_last() =~= sorted@.take(j as int));
        let n = out.len();
        if n > 0 && x.start <= out[n - 1].end.saturating_add(1) {
            let last = out[n - 1];
            let end = if last.end >= x.end { last.end } else { x.end };
            out.set(n - 1, LineInterval { start: last.start, end });
        } else {
            out.push(x);
        }
        j = j + 1;
    }
    assert(sorted@.take(j as int) =~= sorted@);
    out
}

/// Line `l` lies in some covered interval.
pub open spec fn inside(covered: Seq<LineInterval>, l: int) -> bool {
    exists|k: int| 0 <= k < covered.len() && #[trigger] covered[k].start <= l && l <= covered[k].end
}

/// Line `l` (1-indexed) is relevant and no covered interval reaches it.
pub open spec fn uncovered_line(relevant: Seq<bool>, covered: Seq<LineInterval>, l: int) -> bool {
    1 <= l <= relevant.len() && relevant[l - 1] && !inside(covered, l)
}

/// The runs closed so far and the run still open, after the first `n` lines.
pub open spec fn runs(relevant: Seq<bool>, covered: Seq<LineInterval>, n: int) -> (
    Seq<LineInterval>,
    Option<LineInterval>,
)
    decreases n,
{
    if n <= 0 {
        (Seq::empty(), None)
    } else {
        let (out, open) = runs(relevant, covered, n - 1);
        if uncovered_line(relevant, covered, n) {
            match open {
                Some(cur) => if cur.end + 1 == n {
                    (out, Some(LineInterval { start: cur.start, end: n as usize }))
                } else {
                    (out.push(cur), Some(LineInterval { start: n as usize, end: n as usize }))
                },
                None => (out, Some(LineInterval { start: n as usize, end: n as usize })),
            }
        } else {
            (out, open)
        }
    }
}

/// The maximal runs of relevant lines that no covered interval reaches.
pub open spec fn uncovered_runs(relevant: Seq<bool>, covered: Seq<LineInterval>) -> Seq<LineInterval> {
    let (out, open) = runs(relevant, covered, relevant.len() as int);
    match open {
        Some(cur) => out.push(cur),
        None => out,
    }
}

fn line_inside(covered: &[LineInterval], line: usize) -> (b: bool)
    ensures
        b == inside(covered@, line as int),
{
    let mut k: usize = 0;
    while k < covered.len()
        invariant
            k <= covered@.len(),
            forall|j: int| 0 <= j < k ==> !(covered@[j].start <= line && line <= covered@[j].end),
        decreases covered.len() - k,
    {
        if covered[k].start <= line && line <= covered[k].end {
            return true;
        }
        k = k + 1;
    }
    false
}

/// Maximal runs of relevant lines that no covered interval reaches.
pub fn uncovered_relevant(relevant: &[bool], covered: &[LineInterval]) -> (r: Vec<LineInterval>)
    requires
        relevant@.len() < usize::MAX,
    ensures
        r@ == uncovered_runs(relevant@, covered@),
{
    let mut out: Vec<LineInterval> = Vec::new();
    let mut open: Option<LineInterval> = None;
    let mut index: usize = 0;
    while index < relevant.len()
        invariant
            index <= relevant@.len() < usize::MAX,
            (out@, open) == runs(relevant@, covered@, index as int),
            open matches Some(cur) ==> cur.end <= index,
        decreases relevant.len() - index,
    {
        let line = index + 1;
        let inside_now = line_inside(covered, line);
        if relevant[index] && !inside_now {
            match open {
                Some(cur) => {
                    if cur.end + 1 == line {
                        open = Some(LineInterval { start: cur.start, end: line });
                    } else {
                        out.push(cur);
                        open = Some(LineInterval { start: line, end: line });
                    }
                },
                None => {
                    open = Some(LineInterval { start: line, end: line });
                },
            }
        }
        index = index + 1;
    }
    match open {
        Some(cur) => {
            out.push(cur);
        },
        None => {},
    }
    out
}

/// Relevant lines among `start..=end`.
pub open spec fn relevant_count(relevant: Seq<bool>, start: int, end: int) -> nat
    decreases end - start + 1,
{
    if end < start {
        0
    } else {
        relevant_count(relevant, start, end - 1) + if 1 <= end <= relevant.len() && relevant[end - 1] {
            1nat
        } else {
            0nat
        }
    }
}

proof fn lemma_relevant_count_beyond(relevant: Seq<bool>, start: int, end: int)
    requires
        end >= relevant.len(),
    ensures
        relevant_count(relevant, start, end) == relevant_count(
            relevant,
            start,
            if start - 1 > relevant.len() { start - 1 } else { relevant.len() as int },
        ),
    decreases end - start + 1,
{
    let cut = if start - 1 > relevant.len() { start - 1 } else { relevant.len() as int };
    if end > cut {
        lemma_relevant_count_beyond(relevant, start, end - 1);
    }
}

proof fn lemma_relevant_count_bound(relevant: Seq<bool>, start: int, end: int)
    ensures
        relevant_count(relevant, start, end) <= if end < start { 0 } else { end - start + 1 },
    decreases end - start + 1,
{
    if end >= start {
        lemma_relevant_count_bound(relevant, start, end - 1);
    }
}

/// How many lines of `interval` are relevant.
pub fn relevant_within(relevant: &[bool], interval: LineInterval) -> (n: usize)
    requires
        interval.start > 0 || interval.end < interval.start,
    ensures
        n == relevant_count(relevant@, interval.start as int, interval.end as int),
{
    if interval.end < interval.start {
        return 0;
    }
    let last = if interval.end < relevant.len() { interval.end } else { relevant.len() };
    proof {
        if interval.end >= relevant@.len() {
            lemma_relevant_count_beyond(relevant@, interval.start as int, interval.end as int);
        }
    }
    let ghost cut: int = if interval.end < relevant@.len() {
        interval.end as int
    } else if interval.start - 1 > relevant@.len() {
        interval.start - 1
    } else {
        relevant@.len() as int
    };
    if interval.start > last {
        assert(relevant_count(relevant@, interval.start as int, interval.start - 1) == 0);
        return 0;
    }
    let mut n: usize = 0;
    let mut idx = interval.start - 1;
    while idx < last
        invariant
            interval.start > 0,
            interval.start - 1 <= idx <= last,
            last <= relevant@.len(),
            last == cut,
            n == relevant_count(relevant@, interval.start as int, idx as int),
            n <= idx - (interval.start - 1),
        decreases last - idx,
    {
        if relevant[idx] {
            n = n + 1;
        }
        idx = idx + 1;
    }
    n
}


/// Relevant lines that no covered interval reaches, among the first `n`.
pub open spec fn uncovered_count(relevant: Seq<bool>, covered: Seq<LineInterval>, n: int) -> nat
    decreases n,
{
    if n <= 0 {
        0
    } else {
        uncovered_count(relevant, covered, n - 1) + if uncovered_line(relevant, covered, n) {
            1nat
        } else {
            0nat
        }
    }
}

/// Relevant lines within each interval of `s`, summed.
pub open spec fn within_sum(relevant: Seq<bool>, s: Seq<LineInterval>) -> nat
    decreases s.len(),
{
    if s.len() == 0 {
        0
    } else {
        within_sum(relevant, s.drop_last()) + relevant_count(relevant, s.last().start as int, s.last().end as int)
    }
}

pub open spec fn runs_closed(relevant: Seq<bool>, covered: Seq<LineInterval>, n: int) -> Seq<LineInterval> {
    let (out, open) = runs(relevant, covered, n);
    match open {
        Some(cur) => out.push(cur),
        None => out,
    }
}

proof fn lemma_runs(relevant: Seq<bool>, covered: Seq<LineInterval>, n: int)
    requires
        0 <= n <= relevant.len() < usize::MAX,
    ensures
        within_sum(relevant, runs_closed(relevant, covered, n)) == uncovered_count(relevant, covered, n),
        forall|k: int| 0 <= k < runs_closed(relevant, covered, n).len() ==> 1 <= (
        #[trigger] runs_closed(relevant, covered, n)[k]).start <= runs_closed(relevant, covered, n)[k].end
            <= n,
        runs(relevant, covered, n).1 matches Some(cur) ==> 1 <= cur.start <= cur.end <= n,
    decreases n,
{
    if n > 0 {
        lemma_runs(relevant, covered, n - 1);
        let (out, open) = runs(relevant, covered, n - 1);
        let prev = runs_closed(relevant, covered, n - 1);
        if uncovered_line(relevant, covered, n) {
            let single = LineInterval { start: n as usize, end: n as usize };
            assert(relevant_count(relevant, n, n) == 1) by {
                assert(relevant_count(relevant, n, n - 1) == 0);
            }
            match open {
                Some(cur) => {
                    if cur.end + 1 == n {
                        let ext = LineInterval { start: cur.start, end: n as usize };
                        assert(runs_closed(relevant, covered, n) == out.push(ext));
                        assert(prev == out.push(cur));
                        assert(out.push(ext).drop_last() =~= out);
                        assert(out.push(cur).drop_last() =~= out);
                    } else {
                        assert(runs_closed(relevant, covered, n) == out.push(cur).push(single));
                        assert(out.push(cur).push(single).drop_last() =~= out.push(cur));
                    }
                },
                None => {
                    assert(runs_closed(relevant, covered, n) == out.push(single));
                    assert(out.push(single).drop_last() =~= out);
                },
            }
        }
    }
}

proof fn lemma_uncovered_le_relevant(relevant: Seq<bool>, covered: Seq<LineInterval>, n: int)
    requires
        0 <= n,
    ensures
        uncovered_count(relevant, covered, n) <= relevant_count(relevant, 1, n),
    decreases n,
{
    if n > 0 {
        lemma_uncovered_le_relevant(relevant, covered, n - 1);
    }
}

proof fn lemma_within_sum_prefix(relevant: Seq<bool>, s: Seq<LineInterval>, k: int)
    requires
        0 <= k <= s.len(),
    ensures
        within_sum(relevant, s.take(k)) <= within_sum(relevant, s),
    decreases s.len(),
{
    if k < s.len() {
        assert(s.drop_last().take(k) =~= s.take(k));
        lemma_within_sum_prefix(relevant, s.drop_last(), k);
    } else {
        assert(s.take(k) =~= s);
    }
}

/// Completeness of a file with respect to the current cartography.
#[derive(Debug, Clone, Copy, PartialEq, Eq, PartialOrd, Ord, Structural)]
pub enum Completeness {
    /// Every relevant line lies inside some published region.
    Complete,
    /// At least one region, and at least one relevant interval outside them.
    /// A partial intersection never becomes completeness.
    Partial,
    /// No published region meets the file.
    Absent,
}

pub open spec fn completeness_name(c: Completeness) -> Seq<char> {
    match c {
        Completeness::Complete => "COMPLETE"@,
        Completeness::Partial => "PARTIAL"@,
        Completeness::Absent => "NONE"@,
    }
}

impl Completeness {
    pub fn as_str(self) -> (s: &'static str)
        ensures
            s@ == completeness_name(self),
    {
        match self {
            Completeness::Complete => "COMPLETE",
            Completeness::Partial => "PARTIAL",
            Completeness::Absent => "NONE",
        }
    }
}

/// Observed disposition of an eligible file.
#[derive(Debug, Clone, PartialEq, Eq)]
pub enum FileDisposition {
    /// Has at least one published region.
    Covered,
    /// No region, but an approved narrow exception.
    Exception { reason: String, review: String },
    /// Inventoried root, with no coverage demanded in this unit.
    InventoryOnly,
    /// Production gap: no region and no exception.
    Gap,
}

pub open spec fn file_disposition_name(d: FileDisposition) -> Seq<char> {
    match d {
        FileDisposition::Covered => "COVERED"@,
        FileDisposition::Exception { .. } => "EXCEPTION"@,
        FileDisposition::InventoryOnly => "INVENTORY_ONLY"@,
        FileDisposition::Gap => "GAP"@,
    }
}

impl FileDisposition {
    pub fn as_str(&self) -> (s: &'static str)
        ensures
            s@ == file_disposition_name(*self),
    {
        match self {
            FileDisposition::Covered => "COVERED",
            FileDisposition::Exception { .. } => "EXCEPTION",
            FileDisposition::InventoryOnly => "INVENTORY_ONLY",
            FileDisposition::Gap => "GAP",
        }
    }
}

/// Deterministic facts of an eligible file.
#[derive(Debug, Clone, PartialEq, Eq)]
pub struct FileCoverage {
    pub path: String,
    pub root: String,
    pub category: String,
    pub file_enforcement: Enforcement,
    pub regions: Vec<String>,
    pub covered_intervals: Vec<LineInterval>,
    pub uncovered_relevant_intervals: Vec<LineInterval>,
    pub relevant_lines: usize,
    pub covered_relevant_lines: usize,
    pub uncovered_relevant_lines: usize,
    pub completeness: Completeness,
    pub disposition: FileDisposition,
}

/// Complete inventory of the official roots.
#[derive(Debug, Clone, PartialEq, Eq)]
pub struct CoverageInventory {
    pub schema: u64,
    pub policy_path: String,
    pub files: Vec<FileCoverage>,
}

/// Why an inventory could not be built.
#[derive(Debug)]
pub enum InventoryError {
    Scan(crate::nav::ScanError),
    Policy(PolicyError),
    Io { path: String, msg: String },
}

/// The regions of the index that lie in `path`, in index order.
pub open spec fn regions_in(rs: Seq<CodeRegion>, path: Seq<char>) -> Seq<CodeRegion> {
    rs.filter(|r: CodeRegion| r.file@ == path)
}

pub open spec fn region_interval(r: CodeRegion) -> LineInterval {
    LineInterval { start: r.start_marker, end: r.end_marker }
}

/// The relevance of the lines of a text, in the dialect of its root.
pub open spec fn relevance_of(text: Seq<char>, dialect: MarkerDialect) -> Seq<bool> {
    match dialect {
        MarkerDialect::Rust => crate::nav::rust_relevance(lines(text), crate::nav::LexicalState::Code),
        MarkerDialect::Pinker => crate::nav::pinker_relevance(lines(text), crate::nav::PinkerState::Code),
    }
}

/// The facts the inventory publishes of one file.
pub open spec fn coverage_of(
    f: FileCoverage,
    source: OfficialSourceFile,
    text: Seq<char>,
    rs: Seq<CodeRegion>,
    p: PolicyView,
) -> bool {
    let fr = regions_in(rs, source.path@);
    let relevant = relevance_of(text, source.dialect);
    let covered = merged(fr.map_values(|r: CodeRegion| region_interval(r)));
    let uncovered = uncovered_runs(relevant, covered);
    let keys = fr.map_values(|r: CodeRegion| r.key@).sort_by(text_le());
    let scope = first_scope(p.scopes, source.root@, 0);
    let enforcement = match scope {
        Some(k) => p.scopes[k].file_enforcement,
        None => Enforcement::Required,
    };
    &&& f.path@ == source.path@
    &&& f.root@ == source.root@
    &&& f.category@ == match scope {
        Some(k) => p.scopes[k].category,
        None => "UNKNOWN"@,
    }
    &&& f.file_enforcement == enforcement
    &&& string_rows(f.regions@) == keys
    &&& f.covered_intervals@ == covered
    &&& f.uncovered_relevant_intervals@ == uncovered
    &&& f.relevant_lines == relevant_count(relevant, 1, relevant.len() as int)
    &&& f.uncovered_relevant_lines == within_sum(relevant, uncovered)
    &&& f.covered_relevant_lines == f.relevant_lines - f.uncovered_relevant_lines
    &&& f.completeness == if keys.len() == 0 {
        Completeness::Absent
    } else if uncovered.len() == 0 {
        Completeness::Complete
    } else {
        Completeness::Partial
    }
    &&& if keys.len() > 0 {
        f.disposition == FileDisposition::Covered
    } else {
        match first_exception(p.exceptions, source.path@, 0) {
            Some(k) => f.disposition matches FileDisposition::Exception { reason, review } && reason@
                == p.exceptions[k].reason && review@ == p.exceptions[k].review,
            None => f.disposition == if enforcement == Enforcement::Inventory {
                FileDisposition::InventoryOnly
            } else {
                FileDisposition::Gap
            },
        }
    }
}

proof fn lemma_lines_count(s: Seq<char>, start: int)
    requires
        0 <= start <= s.len(),
    ensures
        crate::text::lines_from(s, start).len() <= s.len() - start,
    decreases s.len() - start,
{
    if start < s.len() {
        crate::text::lemma_next_newline(s, start);
        let e = crate::text::next_newline(s, start);
        if e < s.len() {
            lemma_lines_count(s, e + 1);
        }
    }
}

proof fn lemma_rust_relevance_len(ls: Seq<Seq<char>>, st: crate::nav::LexicalState)
    ensures
        crate::nav::rust_relevance(ls, st).len() == ls.len(),
    decreases ls.len(),
{
    if ls.len() > 0 {
        let b = vstd::utf8::encode_utf8(ls[0]);
        let (found, st2) = crate::nav::rust_scan(b, crate::nav::first_non_ws_from(b, 0), st, 0);
        lemma_rust_relevance_len(ls.drop_first(), st2);
    }
}

proof fn lemma_pinker_relevance_len(ls: Seq<Seq<char>>, st: crate::nav::PinkerState)
    ensures
        crate::nav::pinker_relevance(ls, st).len() == ls.len(),
    decreases ls.len(),
{
    if ls.len() > 0 {
        let b = vstd::utf8::encode_utf8(ls[0]);
        let (found, st2) = crate::nav::pinker_scan(b, crate::nav::first_non_ws_from(b, 0), st, 0);
        lemma_pinker_relevance_len(ls.drop_first(), st2);
    }
}

/// The intervals and keys of the regions of `path`, in index order.
fn regions_of_file(rs: &Vec<CodeRegion>, path: &str) -> (r: (Vec<LineInterval>, Vec<Vec<char>>))
    ensures
        r.0@ == regions_in(rs@, path@).map_values(|x: CodeRegion| region_interval(x)),
        rows(r.1@) == regions_in(rs@, path@).map_values(|x: CodeRegion| x.key@),
{
    let ghost pred = |x: CodeRegion| x.file@ == path@;
    let mut intervals: Vec<LineInterval> = Vec::new();
    let mut keys: Vec<Vec<char>> = Vec::new();
    let mut i: usize = 0;
    assert(rs@.take(0) =~= Seq::<CodeRegion>::empty());
    proof {
        reveal(Seq::filter);
    }
    while i < rs.len()
        invariant
            i <= rs@.len(),
            pred == (|x: CodeRegion| x.file@ == path@),
            intervals@ == rs@.take(i as int).filter(pred).map_values(|x: CodeRegion| region_interval(x)),
            rows(keys@) == rs@.take(i as int).filter(pred).map_values(|x: CodeRegion| x.key@),
        decreases rs.len() - i,
    {
        let ghost before = rs@.take(i as int).filter(pred);
        assert(rs@.take(i + 1) =~= rs@.take(i as int).push(rs@[i as int]));
        proof {
            rs@.take(i as int).lemma_filter_push(rs@[i as int], pred);
        }
        if crate::text::str_eq(rs[i].file.as_str(), path) {
            intervals.push(LineInterval { start: rs[i].start_marker, end: rs[i].end_marker });
            let ghost old_rows = rows(keys@);
            keys.push(chars_of(rs[i].key.as_str()));
            assert(rows(keys@) =~= old_rows.push(rs@[i as int].key@));
            assert(intervals@ =~= before.push(rs@[i as int]).map_values(|x: CodeRegion| region_interval(x)));
            assert(rows(keys@) =~= before.push(rs@[i as int]).map_values(|x: CodeRegion| x.key@));
        }
        i = i + 1;
    }
    assert(rs@.take(i as int) =~= rs@);
    (intervals, keys)
}

fn count_relevant(relevant: &Vec<bool>) -> (n: usize)
    ensures
        n == relevant_count(relevant@, 1, relevant@.len() as int),
{
    let mut n: usize = 0;
    let mut i: usize = 0;
    while i < relevant.len()
        invariant
            i <= relevant@.len(),
            n == relevant_count(relevant@, 1, i as int),
            n <= i,
        decreases relevant.len() - i,
    {
        if relevant[i] {
            n = n + 1;
        }
        i = i + 1;
    }
    n
}

/// The facts of one file of the official roots.
fn file_coverage(source: &OfficialSourceFile, text: &str, rs: &Vec<CodeRegion>, policy: &CoveragePolicy) -> (f:
    FileCoverage)
    requires
        crate::nav::text_fits(text@),
    ensures
        coverage_of(f, *source, text@, rs@, policy_view(*policy)),
{
    let relevant = crate::nav::relevant_source_lines(text, source.dialect);
    proof {
        lemma_lines_count(text@, 0);
        lemma_rust_relevance_len(lines(text@), crate::nav::LexicalState::Code);
        lemma_pinker_relevance_len(lines(text@), crate::nav::PinkerState::Code);
    }
    let ghost rel = relevance_of(text@, source.dialect);
    assert(relevant@ == rel);
    let (intervals, key_chars) = regions_of_file(rs, source.path.as_str());
    let covered_intervals = merge_intervals(intervals);
    let uncovered_relevant_intervals = uncovered_relevant(relevant.as_slice(), covered_intervals.as_slice());
    let relevant_lines = count_relevant(&relevant);
    proof {
        lemma_runs(rel, covered_intervals@, rel.len() as int);
        lemma_uncovered_le_relevant(rel, covered_intervals@, rel.len() as int);
    }
    let ghost un = uncovered_relevant_intervals@;
    let mut uncovered_lines: usize = 0;
    let mut k: usize = 0;
    assert(un.take(0) =~= Seq::<LineInterval>::empty());
    while k < uncovered_relevant_intervals.len()
        invariant
            k <= un.len(),
            un == uncovered_relevant_intervals@,
            un == runs_closed(rel, covered_intervals@, rel.len() as int),
            relevant@ == rel,
            within_sum(rel, un) <= relevant_lines,
            forall|j: int| 0 <= j < un.len() ==> 1 <= (#[trigger] un[j]).start <= un[j].end,
            uncovered_lines == within_sum(rel, un.take(k as int)),
        decreases un.len() - k,
    {
        assert(un.take(k + 1).drop_last() =~= un.take(k as int));
        proof {
            lemma_within_sum_prefix(rel, un, k + 1);
        }
        let w = relevant_within(relevant.as_slice(), uncovered_relevant_intervals[k]);
        uncovered_lines = uncovered_lines + w;
        k = k + 1;
    }
    assert(un.take(k as int) =~= un);
    let covered_lines = relevant_lines - uncovered_lines;
    let sorted = crate::text::sort_texts(&key_chars);
    let keys = strings_of(&sorted);
    let completeness = if keys.len() == 0 {
        Completeness::Absent
    } else if uncovered_relevant_intervals.len() == 0 {
        Completeness::Complete
    } else {
        Completeness::Partial
    };
    let (category, file_enforcement) = match policy.scope(source.root.as_str()) {
        Some(scope) => (scope.category.clone(), scope.file_enforcement),
        None => (owned("UNKNOWN"), Enforcement::Required),
    };
    let disposition = if keys.len() > 0 {
        FileDisposition::Covered
    } else {
        match policy.exception(source.path.as_str()) {
            Some(exception) => FileDisposition::Exception {
                reason: exception.reason.clone(),
                review: exception.review.clone(),
            },
            None => if file_enforcement == Enforcement::Inventory {
                FileDisposition::InventoryOnly
            } else {
                FileDisposition::Gap
            },
        }
    };
    FileCoverage {
        path: source.path.clone(),
        root: source.root.clone(),
        category,
        file_enforcement,
        regions: keys,
        covered_intervals,
        uncovered_relevant_intervals,
        relevant_lines,
        covered_relevant_lines: covered_lines,
        uncovered_relevant_lines: uncovered_lines,
        completeness,
        disposition,
    }
}

/// Builds the current inventory from the files of the official roots and
/// their texts. The enumeration of files does not come from the index, so a
/// file with no marker at all is still in the result.
pub fn inventory(
    sources: &Vec<OfficialSourceFile>,
    texts: &Vec<String>,
    index: &CodeIndex,
    policy: &CoveragePolicy,
) -> (r: CoverageInventory)
    requires
        texts@.len() == sources@.len(),
        forall|i: int| 0 <= i < texts@.len() ==> crate::nav::text_fits(#[trigger] texts@[i]@),
    ensures
        r.schema == COVERAGE_SCHEMA,
        r.policy_path@ == POLICY_PATH@,
        r.files@.len() == sources@.len(),
        forall|i: int| 0 <= i < sources@.len() ==> coverage_of(
            #[trigger] r.files@[i],
            sources@[i],
            texts@[i]@,
            index.regions@,
            policy_view(*policy),
        ),
{
    let mut files: Vec<FileCoverage> = Vec::new();
    let mut i: usize = 0;
    while i < sources.len()
        invariant
            i <= sources@.len(),
            texts@.len() == sources@.len(),
            forall|j: int| 0 <= j < texts@.len() ==> crate::nav::text_fits(#[trigger] texts@[j]@),
            files@.len() == i,
            forall|j: int| 0 <= j < i ==> coverage_of(
                #[trigger] files@[j],
                sources@[j],
                texts@[j]@,
                index.regions@,
                policy_view(*policy),
            ),
        decreases sources.len() - i,
    {
        let f = file_coverage(&sources[i], texts[i].as_str(), &index.regions, policy);
        files.push(f);
        i = i + 1;
    }
    CoverageInventory { schema: COVERAGE_SCHEMA, policy_path: owned(POLICY_PATH), files }
}

/// A violation of the current-coverage property.
#[derive(Debug, Clone, PartialEq, Eq, PartialOrd, Ord)]
pub enum CoverageViolation {
    /// Production file with no region and no approved exception.
    UncoveredProductionFile { path: String },
    /// Exception naming a path that no longer exists in the roots.
    StaleException { path: String },
    /// Exception kept on a file that is already covered: silent slack.
    UnnecessaryException { path: String },
    /// Key declared moved, split, merged or retired that came back to the
    /// current catalogue without its disposition being withdrawn.
    ResurrectedDisposedKey { key: String, disposition: &'static str },
    /// Disposition whose declared target is not in the current catalogue.
    MissingDispositionTarget { key: String, target: String },
    /// File under enforcement with a relevant line outside every region.
    UncoveredRelevantInterval { path: String, uncovered_lines: usize, intervals: usize, first: LineInterval },
}

pub enum ViolationView {
    UncoveredProductionFile { path: Seq<char> },
    StaleException { path: Seq<char> },
    UnnecessaryException { path: Seq<char> },
    ResurrectedDisposedKey { key: Seq<char>, disposition: Seq<char> },
    MissingDispositionTarget { key: Seq<char>, target: Seq<char> },
    UncoveredRelevantInterval { path: Seq<char>, uncovered_lines: usize, intervals: usize, first: LineInterval },
}

pub open spec fn violation_view(v: CoverageViolation) -> ViolationView {
    match v {
        CoverageViolation::UncoveredProductionFile { path } => ViolationView::UncoveredProductionFile { path: path@ },
        CoverageViolation::StaleException { path } => ViolationView::StaleException { path: path@ },
        CoverageViolation::UnnecessaryException { path } => ViolationView::UnnecessaryException { path: path@ },
        CoverageViolation::ResurrectedDisposedKey { key, disposition } => ViolationView::ResurrectedDisposedKey {
            key: key@,
            disposition: disposition@,
        },
        CoverageViolation::MissingDispositionTarget { key, target } => ViolationView::MissingDispositionTarget {
            key: key@,
            target: target@,
        },
        CoverageViolation::UncoveredRelevantInterval { path, uncovered_lines, intervals, first } =>
            ViolationView::UncoveredRelevantInterval { path: path@, uncovered_lines, intervals, first },
    }
}

pub open spec fn violations_view(vs: Seq<CoverageViolation>) -> Seq<ViolationView> {
    vs.map_values(|v: CoverageViolation| violation_view(v))
}

/// The fields of a violation in the order in which the derived `Ord`
/// compares them: the variant first, then its fields.
pub open spec fn violation_key(v: ViolationView) -> (int, Seq<char>, Seq<char>, int, int, int, int) {
    match v {
        ViolationView::UncoveredProductionFile { path } => (0, path, Seq::empty(), 0, 0, 0, 0),
        ViolationView::StaleException { path } => (1, path, Seq::empty(), 0, 0, 0, 0),
        ViolationView::UnnecessaryException { path } => (2, path, Seq::empty(), 0, 0, 0, 0),
        ViolationView::ResurrectedDisposedKey { key, disposition } => (3, key, disposition, 0, 0, 0, 0),
        ViolationView::MissingDispositionTarget { key, target } => (4, key, target, 0, 0, 0, 0),
        ViolationView::UncoveredRelevantInterval { path, uncovered_lines, intervals, first } => (
            5,
            path,
            Seq::empty(),
            uncovered_lines as int,
            intervals as int,
            first.start as int,
            first.end as int,
        ),
    }
}

pub open spec fn key_lt(a: (int, Seq<char>, Seq<char>, int, int, int, int), b: (
    int,
    Seq<char>,
    Seq<char>,
    int,
    int,
    int,
    int,
)) -> bool {
    ||| a.0 < b.0
    ||| a.0 == b.0 && seq_lt(a.1, b.1)
    ||| a.0 == b.0 && a.1 == b.1 && seq_lt(a.2, b.2)
    ||| a.0 == b.0 && a.1 == b.1 && a.2 == b.2 && a.3 < b.3
    ||| a.0 == b.0 && a.1 == b.1 && a.2 == b.2 && a.3 == b.3 && a.4 < b.4
    ||| a.0 == b.0 && a.1 == b.1 && a.2 == b.2 && a.3 == b.3 && a.4 == b.4 && a.5 < b.5
    ||| a.0 == b.0 && a.1 == b.1 && a.2 == b.2 && a.3 == b.3 && a.4 == b.4 && a.5 == b.5 && a.6 < b.6
}

/// The order of the derived `Ord` of `CoverageViolation`, on views.
pub open spec fn violation_le() -> spec_fn(ViolationView, ViolationView) -> bool {
    |a: ViolationView, b: ViolationView| !key_lt(violation_key(b), violation_key(a))
}

proof fn lemma_key_lt(a: (int, Seq<char>, Seq<char>, int, int, int, int), b: (
    int,
    Seq<char>,
    Seq<char>,
    int,
    int,
    int,
    int,
), c: (int, Seq<char>, Seq<char>, int, int, int, int))
    ensures
        !key_lt(a, a),
        key_lt(a, b) && key_lt(b, c) ==> key_lt(a, c),
        key_lt(a, b) || key_lt(b, a) || a == b,
{
    crate::text::lemma_seq_lt_irrefl_eq(a.1, a.1);
    crate::text::lemma_seq_lt_irrefl_eq(a.2, a.2);
    crate::text::lemma_seq_lt_irrefl_eq(b.1, b.1);
    crate::text::lemma_seq_lt_irrefl_eq(b.2, b.2);
    crate::text::lemma_seq_lt_total(a.1, b.1);
    crate::text::lemma_seq_lt_total(a.2, b.2);
    if seq_lt(a.1, b.1) && seq_lt(b.1, c.1) {
        crate::text::lemma_seq_lt_trans(a.1, b.1, c.1);
    }
    if seq_lt(a.2, b.2) && seq_lt(b.2, c.2) {
        crate::text::lemma_seq_lt_trans(a.2, b.2, c.2);
    }
    if seq_lt(a.1, b.1) && seq_lt(b.1, a.1) {
        crate::text::lemma_seq_lt_trans(a.1, b.1, a.1);
    }
    if seq_lt(a.2, b.2) && seq_lt(b.2, a.2) {
        crate::text::lemma_seq_lt_trans(a.2, b.2, a.2);
    }
}

proof fn lemma_violation_key_injective(a: ViolationView, b: ViolationView)
    ensures
        violation_key(a) == violation_key(b) ==> a == b,
{
}

pub proof fn lemma_violation_le_total_ordering()
    ensures
        vstd::relations::total_ordering(violation_le()),
{
    let leq = violation_le();
    assert forall|a: ViolationView| #[trigger] leq(a, a) by {
        lemma_key_lt(violation_key(a), violation_key(a), violation_key(a));
    }
    assert forall|a: ViolationView, b: ViolationView| #[trigger] leq(a, b) && #[trigger] leq(b, a) implies a
        == b by {
        lemma_key_lt(violation_key(a), violation_key(b), violation_key(a));
        lemma_violation_key_injective(a, b);
    }
    assert forall|a: ViolationView, b: ViolationView, c: ViolationView| #[trigger] leq(a, b) && #[trigger] leq(
        b,
        c,
    ) implies leq(a, c) by {
        let (ka, kb, kc) = (violation_key(a), violation_key(b), violation_key(c));
        lemma_key_lt(kc, ka, kb);
        lemma_key_lt(ka, kb, kc);
        lemma_key_lt(kb, kc, ka);
        lemma_key_lt(kc, kb, ka);
        lemma_key_lt(kb, ka, kc);
        lemma_key_lt(ka, kc, kb);
    }
    assert forall|a: ViolationView, b: ViolationView| #[trigger] leq(a, b) || #[trigger] leq(b, a) by {
        lemma_key_lt(violation_key(a), violation_key(b), violation_key(a));
    }
}

fn violation_key_exec(v: &CoverageViolation) -> (k: (u8, Vec<char>, Vec<char>, usize, usize, usize, usize))
    ensures
        violation_key(violation_view(*v)) == (k.0 as int, k.1@, k.2@, k.3 as int, k.4 as int, k.5 as int, k.6 as int),
{
    match v {
        CoverageViolation::UncoveredProductionFile { path } => (0, chars_of(path.as_str()), Vec::new(), 0, 0, 0, 0),
        CoverageViolation::StaleException { path } => (1, chars_of(path.as_str()), Vec::new(), 0, 0, 0, 0),
        CoverageViolation::UnnecessaryException { path } => (2, chars_of(path.as_str()), Vec::new(), 0, 0, 0, 0),
        CoverageViolation::ResurrectedDisposedKey { key, disposition } => (
            3,
            chars_of(key.as_str()),
            chars_of(disposition),
            0,
            0,
            0,
            0,
        ),
        CoverageViolation::MissingDispositionTarget { key, target } => (
            4,
            chars_of(key.as_str()),
            chars_of(target.as_str()),
            0,
            0,
            0,
            0,
        ),
        CoverageViolation::UncoveredRelevantInterval { path, uncovered_lines, intervals, first } => (
            5,
            chars_of(path.as_str()),
            Vec::new(),
            *uncovered_lines,
            *intervals,
            first.start,
            first.end,
        ),
    }
}

/// `b < a` in the derived order.
fn violation_before(b: &CoverageViolation, a: &CoverageViolation) -> (r: bool)
    ensures
        r == key_lt(violation_key(violation_view(*b)), violation_key(violation_view(*a))),
{
    let kb = violation_key_exec(b);
    let ka = violation_key_exec(a);
    if kb.0 != ka.0 {
        return kb.0 < ka.0;
    }
    if crate::text::vec_lt(&kb.1, &ka.1) {
        return true;
    }
    if !crate::text::vec_eq(&kb.1, &ka.1) {
        return false;
    }
    if crate::text::vec_lt(&kb.2, &ka.2) {
        return true;
    }
    if !crate::text::vec_eq(&kb.2, &ka.2) {
        return false;
    }
    if kb.3 != ka.3 {
        return kb.3 < ka.3;
    }
    if kb.4 != ka.4 {
        return kb.4 < ka.4;
    }
    if kb.5 != ka.5 {
        return kb.5 < ka.5;
    }
    kb.6 < ka.6
}

fn insert_violation(v: &mut Vec<CoverageViolation>, x: CoverageViolation)
    requires
        vstd::relations::sorted_by(violations_view(old(v)@), violation_le()),
    ensures
        vstd::relations::sorted_by(violations_view(final(v)@), violation_le()),
        violations_view(final(v)@).to_multiset() == violations_view(old(v)@).to_multiset().insert(
            violation_view(x),
        ),
{
    broadcast use vstd::seq_lib::group_to_multiset_ensures;

    proof {
        lemma_violation_le_total_ordering();
    }
    let ghost s = violations_view(v@);
    let ghost xv = violation_view(x);
    let mut k = v.len();
    while k > 0 && violation_before(&x, &v[k - 1])
        invariant
            k <= v@.len(),
            s == violations_view(v@),
            xv == violation_view(x),
            forall|j: int| k <= j < s.len() ==> key_lt(violation_key(xv), violation_key(#[trigger] s[j])),
        decreases k,
    {
        k = k - 1;
    }
    assert(k == 0 || !key_lt(violation_key(xv), violation_key(s[k - 1])));
    v.insert(k, x);
    proof {
        let t = violations_view(v@);
        assert(t =~= s.insert(k as int, xv));
        let leq = violation_le();
        assert forall|a: int, b: int| 0 <= a < b < t.len() implies #[trigger] leq(t[a], t[b]) by {
            if b < k {
                assert(leq(s[a], s[b]));
            } else if b == k {
                assert(t[b] == xv);
                assert(t[a] == s[a]);
                assert(leq(s[k - 1], xv));
                if a < k - 1 {
                    assert(leq(s[a], s[k - 1]));
                }
            } else if a < k {
                assert(t[a] == s[a]);
                assert(t[b] == s[b - 1]);
                assert(leq(s[a], s[b - 1]));
            } else if a > k {
                assert(leq(s[a - 1], s[b - 1]));
            } else {
                assert(t[a] == xv);
                assert(t[b] == s[b - 1]);
                assert(key_lt(violation_key(xv), violation_key(s[b - 1])));
                lemma_key_lt(violation_key(xv), violation_key(s[b - 1]), violation_key(xv));
                assert(leq(xv, s[b - 1]));
            }
        }
    }
}

fn sort_violations(v: Vec<CoverageViolation>) -> (r: Vec<CoverageViolation>)
    ensures
        violations_view(r@) == violations_view(v@).sort_by(violation_le()),
{
    broadcast use vstd::seq_lib::group_to_multiset_ensures;

    let ghost all = violations_view(v@);
    let mut rest = v;
    let mut sorted: Vec<CoverageViolation> = Vec::new();
    let ghost mut i: int = 0;
    assert(violations_view(sorted@) =~= Seq::<ViolationView>::empty());
    assert(all.take(0) =~= Seq::<ViolationView>::empty());
    assert(violations_view(rest@) =~= all.skip(0));
    while rest.len() > 0
        invariant
            0 <= i <= all.len(),
            violations_view(rest@) == all.skip(i),
            vstd::relations::sorted_by(violations_view(sorted@), violation_le()),
            violations_view(sorted@).to_multiset() == all.take(i).to_multiset(),
        decreases rest.len(),
    {
        let ghost before = rest@;
        let x = rest.remove(0);
        proof {
            assert(x == before[0]);
            assert(violations_view(before).len() == before.len());
            assert(all.skip(i).len() == before.len());
            assert(i < all.len());
            assert(violations_view(before)[0] == violation_view(before[0]));
            assert(all.skip(i)[0] == all[i]);
            assert(violation_view(x) == all[i]);
            assert(violations_view(rest@) =~= all.skip(i + 1)) by {
                assert(rest@ =~= before.remove(0));
                assert forall|j: int| 0 <= j < violations_view(rest@).len() implies violations_view(rest@)[j]
                    == all.skip(i + 1)[j] by {
                    assert(violations_view(rest@)[j] == violation_view(rest@[j]));
                    assert(before.remove(0)[j] == before[j + 1]);
                    assert(rest@[j] == before[j + 1]);
                    assert(violations_view(before)[j + 1] == violation_view(before[j + 1]));
                    assert(all.skip(i)[j + 1] == all[i + j + 1]);
                }
            }
            assert(all.take(i + 1) =~= all.take(i).push(violation_view(x)));
            vstd::seq_lib::to_multiset_build(all.take(i), violation_view(x));
        }
        insert_violation(&mut sorted, x);
        proof {
            i = i + 1;
        }
    }
    proof {
        assert(all.take(i) =~= all);
        lemma_violation_le_total_ordering();
        all.lemma_sort_by_ensures(violation_le());
        vstd::seq_lib::lemma_sorted_unique(violations_view(sorted@), all.sort_by(violation_le()), violation_le());
    }
    sorted
}

/// The violations a file carries by itself.
pub open spec fn file_violations(f: FileCoverage) -> Seq<ViolationView> {
    (if f.disposition is Gap {
        seq![ViolationView::UncoveredProductionFile { path: f.path@ }]
    } else {
        Seq::empty()
    }) + if f.file_enforcement == Enforcement::Required && !(f.disposition is Exception)
        && f.uncovered_relevant_intervals@.len() > 0 {
        seq![
            ViolationView::UncoveredRelevantInterval {
                path: f.path@,
                uncovered_lines: f.uncovered_relevant_lines,
                intervals: f.uncovered_relevant_intervals@.len() as usize,
                first: f.uncovered_relevant_intervals@[0],
            },
        ]
    } else {
        Seq::empty()
    }
}

pub open spec fn files_violations(fs: Seq<FileCoverage>) -> Seq<ViolationView>
    decreases fs.len(),
{
    if fs.len() == 0 {
        Seq::empty()
    } else {
        files_violations(fs.drop_last()) + file_violations(fs.last())
    }
}

/// Index of the last of the first `n` files with `path`.
pub open spec fn last_file(fs: Seq<FileCoverage>, path: Seq<char>, n: int) -> Option<int>
    decreases n,
{
    if n <= 0 {
        None
    } else if fs[n - 1].path@ == path {
        Some(n - 1)
    } else {
        last_file(fs, path, n - 1)
    }
}

pub open spec fn exception_violation(e: ExceptionView, fs: Seq<FileCoverage>) -> Seq<ViolationView> {
    match last_file(fs, e.path, fs.len() as int) {
        None => seq![ViolationView::StaleException { path: e.path }],
        Some(k) => if fs[k].regions@.len() > 0 {
            seq![ViolationView::UnnecessaryException { path: e.path }]
        } else {
            Seq::empty()
        },
    }
}

pub open spec fn exceptions_violations(es: Seq<ExceptionView>, fs: Seq<FileCoverage>) -> Seq<ViolationView>
    decreases es.len(),
{
    if es.len() == 0 {
        Seq::empty()
    } else {
        exceptions_violations(es.drop_last(), fs) + exception_violation(es.last(), fs)
    }
}

/// Some region of the current catalogue has key `k`.
pub open spec fn key_current(rs: Seq<CodeRegion>, k: Seq<char>) -> bool {
    exists|i: int| 0 <= i < rs.len() && (#[trigger] rs[i]).key@ == k
}

pub open spec fn target_violations(key: Seq<char>, ts: Seq<Seq<char>>, rs: Seq<CodeRegion>) -> Seq<ViolationView>
    decreases ts.len(),
{
    if ts.len() == 0 {
        Seq::empty()
    } else {
        target_violations(key, ts.drop_last(), rs) + if key_current(rs, ts.last()) {
            Seq::empty()
        } else {
            seq![ViolationView::MissingDispositionTarget { key, target: ts.last() }]
        }
    }
}

pub open spec fn disposition_violation(d: DispositionView, rs: Seq<CodeRegion>) -> Seq<ViolationView> {
    (if key_current(rs, d.key) {
        seq![ViolationView::ResurrectedDisposedKey { key: d.key, disposition: disposition_name(d.kind) }]
    } else {
        Seq::empty()
    }) + target_violations(d.key, d.targets, rs)
}

pub open spec fn dispositions_violations(ds: Seq<DispositionView>, rs: Seq<CodeRegion>) -> Seq<ViolationView>
    decreases ds.len(),
{
    if ds.len() == 0 {
        Seq::empty()
    } else {
        dispositions_violations(ds.drop_last(), rs) + disposition_violation(ds.last(), rs)
    }
}

/// Every violation of the property, in the derived order.
pub open spec fn violations_of(inv: CoverageInventory, rs: Seq<CodeRegion>, p: PolicyView) -> Seq<ViolationView> {
    (files_violations(inv.files@) + exceptions_violations(p.exceptions, inv.files@) + dispositions_violations(
        p.dispositions,
        rs,
    )).sort_by(violation_le())
}

/// The findings of the coverage check come sorted in the findings' order
/// and are exactly the findings of the files, of the exceptions and of the
/// dispositions, each as often as it arises.
pub proof fn law_violations_sorted_and_exact(inv: CoverageInventory, rs: Seq<CodeRegion>, p: PolicyView)
    ensures
        vstd::relations::sorted_by(violations_of(inv, rs, p), violation_le()),
        violations_of(inv, rs, p).to_multiset() == (files_violations(inv.files@) + exceptions_violations(
            p.exceptions,
            inv.files@,
        ) + dispositions_violations(p.dispositions, rs)).to_multiset(),
{
    lemma_violation_le_total_ordering();
    (files_violations(inv.files@) + exceptions_violations(p.exceptions, inv.files@) + dispositions_violations(
        p.dispositions,
        rs,
    )).lemma_sort_by_ensures(violation_le());
}

fn key_current_exec(rs: &Vec<CodeRegion>, k: &str) -> (b: bool)
    ensures
        b == key_current(rs@, k@),
{
    let mut i: usize = 0;
    while i < rs.len()
        invariant
            i <= rs@.len(),
            forall|j: int| 0 <= j < i ==> (#[trigger] rs@[j]).key@ != k@,
        decreases rs.len() - i,
    {
        if crate::text::str_eq(rs[i].key.as_str(), k) {
            return true;
        }
        i = i + 1;
    }
    false
}

fn push_violation(out: &mut Vec<CoverageViolation>, v: CoverageViolation)
    ensures
        violations_view(final(out)@) == violations_view(old(out)@).push(violation_view(v)),
{
    out.push(v);
    assert(violations_view(out@) =~= violations_view(old(out)@).push(violation_view(v)));
}

/// Evaluates the property over the current inventory. Read-only.
pub fn verify(inventory: &CoverageInventory, index: &CodeIndex, policy: &CoveragePolicy) -> (r: Vec<
    CoverageViolation,
>)
    ensures
        violations_view(r@) == violations_of(*inventory, index.regions@, policy_view(*policy)),
{
    let ghost fs = inventory.files@;
    let ghost pv = policy_view(*policy);
    let mut out: Vec<CoverageViolation> = Vec::new();
    let mut i: usize = 0;
    assert(fs.take(0) =~= Seq::<FileCoverage>::empty());
    assert(violations_view(out@) =~= Seq::<ViolationView>::empty());
    while i < inventory.files.len()
        invariant
            i <= fs.len(),
            fs == inventory.files@,
            violations_view(out@) == files_violations(fs.take(i as int)),
        decreases inventory.files.len() - i,
    {
        let file = &inventory.files[i];
        assert(fs.take(i + 1).drop_last() =~= fs.take(i as int));
        let ghost before = violations_view(out@);
        if matches!(file.disposition, FileDisposition::Gap) {
            push_violation(&mut out, CoverageViolation::UncoveredProductionFile { path: file.path.clone() });
        }
        let ghost mid = violations_view(out@);
        if file.file_enforcement == Enforcement::Required && !matches!(
            file.disposition,
            FileDisposition::Exception { .. }
        ) && file.uncovered_relevant_intervals.len() > 0 {
            push_violation(
                &mut out,
                CoverageViolation::UncoveredRelevantInterval {
                    path: file.path.clone(),
                    uncovered_lines: file.uncovered_relevant_lines,
                    intervals: file.uncovered_relevant_intervals.len(),
                    first: file.uncovered_relevant_intervals[0],
                },
            );
        }
        assert(violations_view(out@) =~= before + file_violations(*file));
        i = i + 1;
    }
    assert(fs.take(i as int) =~= fs);
    let ghost part1 = violations_view(out@);
    let mut e: usize = 0;
    let ghost es = pv.exceptions;
    assert(es.take(0) =~= Seq::<ExceptionView>::empty());
    assert(part1 + exceptions_violations(es.take(0), fs) =~= part1);
    while e < policy.exceptions.len()
        invariant
            e <= es.len(),
            es == policy_view(*policy).exceptions,
            fs == inventory.files@,
            violations_view(out@) == part1 + exceptions_violations(es.take(e as int), fs),
        decreases policy.exceptions.len() - e,
    {
        let exception = &policy.exceptions[e];
        assert(es[e as int] == exception_view(*exception));
        assert(es.take(e + 1).drop_last() =~= es.take(e as int));
        let ghost before = violations_view(out@);
        let mut found: Option<usize> = None;
        let mut j: usize = inventory.files.len();
        let ghost lf = last_file(fs, exception.path@, fs.len() as int);
        while j > 0
            invariant_except_break
                found is None,
                lf == last_file(fs, exception.path@, j as int),
            invariant
                j <= fs.len(),
                fs == inventory.files@,
                lf == last_file(fs, exception.path@, fs.len() as int),
            ensures
                found matches Some(k) ==> lf == Some(k as int) && k < fs.len(),
                found is None ==> lf is None,
            decreases j,
        {
            if crate::text::str_eq(inventory.files[j - 1].path.as_str(), exception.path.as_str()) {
                found = Some(j - 1);
                break;
            }
            j = j - 1;
        }
        assert(found matches Some(k) ==> last_file(fs, exception.path@, fs.len() as int) == Some(k as int));
        assert(found is None ==> last_file(fs, exception.path@, fs.len() as int) is None);
        match found {
            None => {
                push_violation(&mut out, CoverageViolation::StaleException { path: exception.path.clone() });
            },
            Some(k) => {
                if inventory.files[k].regions.len() > 0 {
                    push_violation(
                        &mut out,
                        CoverageViolation::UnnecessaryException { path: exception.path.clone() },
                    );
                }
            },
        }
        assert(violations_view(out@) =~= before + exception_violation(es[e as int], fs));
        e = e + 1;
    }
    assert(es.take(e as int) =~= es);
    let ghost part2 = violations_view(out@);
    let ghost ds = pv.dispositions;
    let ghost rs = index.regions@;
    let mut d: usize = 0;
    assert(ds.take(0) =~= Seq::<DispositionView>::empty());
    assert(part2 + dispositions_violations(ds.take(0), rs) =~= part2);
    while d < policy.dispositions.len()
        invariant
            d <= ds.len(),
            ds == policy_view(*policy).dispositions,
            rs == index.regions@,
            violations_view(out@) == part2 + dispositions_violations(ds.take(d as int), rs),
        decreases policy.dispositions.len() - d,
    {
        let disposition = &policy.dispositions[d];
        let ghost dv = ds[d as int];
        assert(dv == disposition_view(*disposition));
        assert(ds.take(d + 1).drop_last() =~= ds.take(d as int));
        let ghost before = violations_view(out@);
        if key_current_exec(&index.regions, disposition.key.as_str()) {
            push_violation(
                &mut out,
                CoverageViolation::ResurrectedDisposedKey {
                    key: disposition.key.clone(),
                    disposition: disposition.kind.as_str(),
                },
            );
        }
        let ghost mid = violations_view(out@);
        let mut t: usize = 0;
        assert(dv.targets.take(0) =~= Seq::<Seq<char>>::empty());
        assert(mid + target_violations(dv.key, dv.targets.take(0), rs) =~= mid);
        while t < disposition.targets.len()
            invariant
                t <= disposition.targets@.len(),
                dv == disposition_view(*disposition),
                rs == index.regions@,
                violations_view(out@) == mid + target_violations(dv.key, dv.targets.take(t as int), rs),
            decreases disposition.targets.len() - t,
        {
            assert(dv.targets[t as int] == disposition.targets@[t as int]@);
            assert(dv.targets.take(t + 1).drop_last() =~= dv.targets.take(t as int));
            if !key_current_exec(&index.regions, disposition.targets[t].as_str()) {
                push_violation(
                    &mut out,
                    CoverageViolation::MissingDispositionTarget {
                        key: disposition.key.clone(),
                        target: disposition.targets[t].clone(),
                    },
                );
            }
            t = t + 1;
        }
        assert(dv.targets.take(t as int) =~= dv.targets);
        assert(violations_view(out@) =~= before + disposition_violation(dv, rs));
        d = d + 1;
    }
    assert(ds.take(d as int) =~= ds);
    sort_violations(out)
}

/// Aggregate of one official root.
#[derive(Debug, Clone, PartialEq, Eq)]
pub struct RootSummary {
    pub root: String,
    pub category: String,
    pub file_enforcement: Enforcement,
    pub files: usize,
    pub complete: usize,
    pub partial: usize,
    pub absent: usize,
    pub exceptions: usize,
    pub gaps: usize,
}

/// The roots of the files, each once, in order of first occurrence.
pub open spec fn distinct_roots(fs: Seq<FileCoverage>) -> Seq<Seq<char>>
    decreases fs.len(),
{
    if fs.len() == 0 {
        Seq::empty()
    } else {
        let d = distinct_roots(fs.drop_last());
        if d.contains(fs.last().root@) {
            d
        } else {
            d.push(fs.last().root@)
        }
    }
}

/// Files of `fs` that satisfy `pred`.
pub open spec fn count_files(fs: Seq<FileCoverage>, pred: spec_fn(FileCoverage) -> bool) -> nat
    decreases fs.len(),
{
    if fs.len() == 0 {
        0
    } else {
        count_files(fs.drop_last(), pred) + if pred(fs.last()) {
            1nat
        } else {
            0nat
        }
    }
}

/// Index of the first file of `root`.
pub open spec fn first_of_root(fs: Seq<FileCoverage>, root: Seq<char>, i: int) -> Option<int>
    decreases fs.len() - i,
{
    if i < 0 || i >= fs.len() {
        None
    } else if fs[i].root@ == root {
        Some(i)
    } else {
        first_of_root(fs, root, i + 1)
    }
}

pub open spec fn in_root(root: Seq<char>) -> spec_fn(FileCoverage) -> bool {
    |f: FileCoverage| f.root@ == root
}

pub open spec fn with_completeness(root: Seq<char>, c: Completeness) -> spec_fn(FileCoverage) -> bool {
    |f: FileCoverage| f.root@ == root && f.completeness == c
}

pub open spec fn excepted_in(root: Seq<char>) -> spec_fn(FileCoverage) -> bool {
    |f: FileCoverage| f.root@ == root && f.disposition is Exception
}

pub open spec fn gap_in(root: Seq<char>) -> spec_fn(FileCoverage) -> bool {
    |f: FileCoverage| f.root@ == root && f.disposition is Gap
}

/// The summary of `root` over `fs`: category and level from its first file.
pub open spec fn summary_of(sm: RootSummary, fs: Seq<FileCoverage>, root: Seq<char>) -> bool {
    &&& sm.root@ == root
    &&& first_of_root(fs, root, 0) matches Some(k) && sm.category@ == fs[k].category@ && sm.file_enforcement
        == fs[k].file_enforcement
    &&& sm.files == count_files(fs, in_root(root))
    &&& sm.complete == count_files(fs, with_completeness(root, Completeness::Complete))
    &&& sm.partial == count_files(fs, with_completeness(root, Completeness::Partial))
    &&& sm.absent == count_files(fs, with_completeness(root, Completeness::Absent))
    &&& sm.exceptions == count_files(fs, excepted_in(root))
    &&& sm.gaps == count_files(fs, gap_in(root))
}

/// The summaries of an inventory, one per root, in the order of the roots.
pub open spec fn summaries_ok(r: Seq<RootSummary>, fs: Seq<FileCoverage>) -> bool {
    let roots = distinct_roots(fs).sort_by(text_le());
    &&& r.len() == roots.len()
    &&& forall|i: int| 0 <= i < r.len() ==> summary_of(#[trigger] r[i], fs, roots[i])
}

proof fn lemma_count_bound(fs: Seq<FileCoverage>, pred: spec_fn(FileCoverage) -> bool)
    ensures
        count_files(fs, pred) <= fs.len(),
    decreases fs.len(),
{
    if fs.len() > 0 {
        lemma_count_bound(fs.drop_last(), pred);
    }
}

proof fn lemma_distinct_roots_in(fs: Seq<FileCoverage>, k: int)
    requires
        0 <= k < distinct_roots(fs).len(),
    ensures
        first_of_root(fs, distinct_roots(fs)[k], 0) is Some,
    decreases fs.len(),
{
    let d = distinct_roots(fs.drop_last());
    let r = distinct_roots(fs)[k];
    if k < d.len() {
        lemma_distinct_roots_in(fs.drop_last(), k);
        lemma_first_of_root_prefix(fs, r, 0);
    } else {
        assert(r == fs.last().root@);
        lemma_first_of_root_found(fs, r, 0, fs.len() - 1);
    }
}

proof fn lemma_first_of_root_prefix(fs: Seq<FileCoverage>, root: Seq<char>, i: int)
    requires
        fs.len() > 0,
        0 <= i,
        first_of_root(fs.drop_last(), root, i) is Some,
    ensures
        first_of_root(fs, root, i) is Some,
    decreases fs.len() - i,
{
    if i < fs.len() - 1 && fs[i].root@ != root {
        lemma_first_of_root_prefix(fs, root, i + 1);
    }
}

proof fn lemma_first_of_root_found(fs: Seq<FileCoverage>, root: Seq<char>, i: int, j: int)
    requires
        0 <= i <= j < fs.len(),
        fs[j].root@ == root,
    ensures
        first_of_root(fs, root, i) is Some,
    decreases j - i,
{
    if fs[i].root@ != root {
        lemma_first_of_root_found(fs, root, i + 1, j);
    }
}

proof fn lemma_sorted_roots_in(fs: Seq<FileCoverage>, k: int)
    requires
        0 <= k < distinct_roots(fs).sort_by(text_le()).len(),
    ensures
        first_of_root(fs, distinct_roots(fs).sort_by(text_le())[k], 0) is Some,
{
    let d = distinct_roots(fs);
    crate::text::lemma_seq_le_total_ordering();
    d.lemma_sort_by_ensures(text_le());
    let x = d.sort_by(text_le())[k];
    assert(d.sort_by(text_le()).to_multiset().count(x) > 0) by {
        broadcast use vstd::seq_lib::group_to_multiset_ensures;
        assert(d.sort_by(text_le()).contains(x));
    }
    assert(d.to_multiset().count(x) > 0);
    assert(d.contains(x)) by {
        broadcast use vstd::seq_lib::group_to_multiset_ensures;
    }
    let j = choose|j: int| 0 <= j < d.len() && d[j] == x;
    lemma_distinct_roots_in(fs, j);
}

fn distinct_roots_exec(files: &Vec<FileCoverage>) -> (r: Vec<Vec<char>>)
    ensures
        rows(r@) == distinct_roots(files@),
{
    let mut r: Vec<Vec<char>> = Vec::new();
    let mut i: usize = 0;
    assert(files@.take(0) =~= Seq::<FileCoverage>::empty());
    while i < files.len()
        invariant
            i <= files@.len(),
            rows(r@) == distinct_roots(files@.take(i as int)),
        decreases files.len() - i,
    {
        assert(files@.take(i + 1).drop_last() =~= files@.take(i as int));
        let c = chars_of(files[i].root.as_str());
        if !listed(&r, &c) {
            let ghost old_rows = rows(r@);
            r.push(c);
            assert(rows(r@) =~= old_rows.push(files@[i as int].root@));
        }
        i = i + 1;
    }
    assert(files@.take(i as int) =~= files@);
    r
}

fn summary_for(files: &Vec<FileCoverage>, root: &Vec<char>) -> (sm: RootSummary)
    requires
        first_of_root(files@, root@, 0) is Some,
    ensures
        summary_of(sm, files@, root@),
{
    let ghost fs = files@;
    let ghost rv = root@;
    let ghost p_all = in_root(rv);
    let ghost p_c = with_completeness(rv, Completeness::Complete);
    let ghost p_p = with_completeness(rv, Completeness::Partial);
    let ghost p_a = with_completeness(rv, Completeness::Absent);
    let ghost p_e = excepted_in(rv);
    let ghost p_g = gap_in(rv);
    let mut first: Option<usize> = None;
    let mut n: usize = 0;
    let mut complete: usize = 0;
    let mut partial: usize = 0;
    let mut absent: usize = 0;
    let mut exceptions: usize = 0;
    let mut gaps: usize = 0;
    let mut i: usize = 0;
    assert(fs.take(0) =~= Seq::<FileCoverage>::empty());
    while i < files.len()
        invariant
            i <= fs.len(),
            fs == files@,
            rv == root@,
            p_all == in_root(rv),
            p_c == with_completeness(rv, Completeness::Complete),
            p_p == with_completeness(rv, Completeness::Partial),
            p_a == with_completeness(rv, Completeness::Absent),
            p_e == excepted_in(rv),
            p_g == gap_in(rv),
            first_of_root(fs, rv, 0) is Some,
            match first {
                Some(k) => k < i && first_of_root(fs, rv, 0) == Some(k as int),
                None => first_of_root(fs, rv, 0) == first_of_root(fs, rv, i as int),
            },
            n == count_files(fs.take(i as int), p_all),
            complete == count_files(fs.take(i as int), p_c),
            partial == count_files(fs.take(i as int), p_p),
            absent == count_files(fs.take(i as int), p_a),
            exceptions == count_files(fs.take(i as int), p_e),
            gaps == count_files(fs.take(i as int), p_g),
            n <= i && complete <= i && partial <= i && absent <= i && exceptions <= i && gaps <= i,
        decreases files.len() - i,
    {
        assert(fs.take(i + 1).drop_last() =~= fs.take(i as int));
        assert(fs.take(i + 1).last() == fs[i as int]);
        let f = &files[i];
        let mine = crate::text::str_eq(f.root.as_str(), string_from(root.as_slice()).as_str());
        if mine {
            if first.is_none() {
                first = Some(i);
            }
            n = n + 1;
            match f.completeness {
                Completeness::Complete => {
                    complete = complete + 1;
                },
                Completeness::Partial => {
                    partial = partial + 1;
                },
                Completeness::Absent => {
                    absent = absent + 1;
                },
            }
            match f.disposition {
                FileDisposition::Exception { .. } => {
                    exceptions = exceptions + 1;
                },
                FileDisposition::Gap => {
                    gaps = gaps + 1;
                },
                _ => {},
            }
        }
        i = i + 1;
    }
    assert(fs.take(i as int) =~= fs);
    let k = match first {
        Some(k) => k,
        None => 0,
    };
    RootSummary {
        root: string_from(root.as_slice()),
        category: files[k].category.clone(),
        file_enforcement: files[k].file_enforcement,
        files: n,
        complete,
        partial,
        absent,
        exceptions,
        gaps,
    }
}

/// One summary per official root present in the inventory, in the order of
/// the roots.
pub fn summarize(inventory: &CoverageInventory) -> (r: Vec<RootSummary>)
    ensures
        summaries_ok(r@, inventory.files@),
{
    let roots = distinct_roots_exec(&inventory.files);
    let sorted = crate::text::sort_texts(&roots);
    let ghost rs = distinct_roots(inventory.files@).sort_by(text_le());
    let mut out: Vec<RootSummary> = Vec::new();
    let mut i: usize = 0;
    while i < sorted.len()
        invariant
            i <= sorted@.len(),
            rows(sorted@) == rs,
            rs == distinct_roots(inventory.files@).sort_by(text_le()),
            out@.len() == i,
            forall|j: int| 0 <= j < i ==> summary_of(#[trigger] out@[j], inventory.files@, rs[j]),
        decreases sorted.len() - i,
    {
        assert(rs[i as int] == sorted@[i as int]@);
        proof {
            lemma_sorted_roots_in(inventory.files@, i as int);
        }
        let sm = summary_for(&inventory.files, &sorted[i]);
        out.push(sm);
        i = i + 1;
    }
    out
}

pub open spec fn dec(n: usize) -> Seq<char> {
    decimal(n as nat)
}

pub open spec fn summary_line(sm: RootSummary) -> Seq<char> {
    "- "@ + sm.root@ + " ["@ + sm.category@ + "/"@ + enforcement_name(sm.file_enforcement) + "] arquivos="@ + dec(
        sm.files,
    ) + " completos="@ + dec(sm.complete) + " parciais="@ + dec(sm.partial) + " sem-regiao="@ + dec(sm.absent)
        + " excecoes="@ + dec(sm.exceptions) + " lacunas="@ + dec(sm.gaps) + "\n"@
}

pub open spec fn summary_lines(ss: Seq<RootSummary>) -> Seq<char>
    decreases ss.len(),
{
    if ss.len() == 0 {
        Seq::empty()
    } else {
        summary_lines(ss.drop_last()) + summary_line(ss.last())
    }
}

/// `start-end` of each interval, separated by commas.
pub open spec fn dashed(ivs: Seq<LineInterval>) -> Seq<char>
    decreases ivs.len(),
{
    if ivs.len() == 0 {
        Seq::empty()
    } else {
        dashed(ivs.drop_last()) + (if ivs.len() > 1 {
            ","@
        } else {
            Seq::empty()
        }) + dec(ivs.last().start) + "-"@ + dec(ivs.last().end)
    }
}

pub open spec fn file_text(f: FileCoverage) -> Seq<char> {
    f.path@ + " "@ + completeness_name(f.completeness) + " regioes="@ + dec(f.regions@.len() as usize)
        + " relevantes="@ + dec(f.relevant_lines) + " cobertas="@ + dec(f.covered_relevant_lines)
        + " disposicao="@ + file_disposition_name(f.disposition) + "\n"@ + if f.uncovered_relevant_intervals@.len()
        > 0 {
        "  descobertos: "@ + dashed(f.uncovered_relevant_intervals@) + "\n"@
    } else {
        Seq::empty()
    }
}

pub open spec fn files_text(fs: Seq<FileCoverage>) -> Seq<char>
    decreases fs.len(),
{
    if fs.len() == 0 {
        Seq::empty()
    } else {
        files_text(fs.drop_last()) + file_text(fs.last())
    }
}

/// The human report of an inventory, over the summaries that `summarize`
/// gives.
pub open spec fn inventory_text(inv: CoverageInventory, ss: Seq<RootSummary>) -> Seq<char> {
    "cobertura corrente da cartografia\n"@ + "autoridade: "@ + inv.policy_path@ + "\n"@ + summary_lines(ss)
        + files_text(inv.files@)
}

fn push_usize(out: &mut Vec<char>, n: usize)
    ensures
        final(out)@ == old(out)@ + dec(n),
{
    push_decimal(out, n as u64);
}

fn push_dashed(out: &mut Vec<char>, ivs: &Vec<LineInterval>)
    ensures
        final(out)@ == old(out)@ + dashed(ivs@),
{
    let ghost start = out@;
    let mut i: usize = 0;
    assert(ivs@.take(0) =~= Seq::<LineInterval>::empty());
    assert(start + dashed(Seq::empty()) =~= start);
    while i < ivs.len()
        invariant
            i <= ivs@.len(),
            out@ == start + dashed(ivs@.take(i as int)),
        decreases ivs.len() - i,
    {
        let ghost before = out@;
        assert(ivs@.take(i + 1).drop_last() =~= ivs@.take(i as int));
        if i > 0 {
            push_str_chars(out, ",");
        }
        push_usize(out, ivs[i].start);
        push_str_chars(out, "-");
        push_usize(out, ivs[i].end);
        assert(out@ =~= start + dashed(ivs@.take(i + 1)));
        i = i + 1;
    }
    assert(ivs@.take(i as int) =~= ivs@);
}

fn push_summary_line(out: &mut Vec<char>, sm: &RootSummary)
    ensures
        final(out)@ == old(out)@ + summary_line(*sm),
{
    let ghost start = out@;
    push_str_chars(out, "- ");
    push_str_chars(out, sm.root.as_str());
    push_str_chars(out, " [");
    push_str_chars(out, sm.category.as_str());
    push_str_chars(out, "/");
    push_str_chars(out, sm.file_enforcement.as_str());
    push_str_chars(out, "] arquivos=");
    push_usize(out, sm.files);
    push_str_chars(out, " completos=");
    push_usize(out, sm.complete);
    push_str_chars(out, " parciais=");
    push_usize(out, sm.partial);
    push_str_chars(out, " sem-regiao=");
    push_usize(out, sm.absent);
    push_str_chars(out, " excecoes=");
    push_usize(out, sm.exceptions);
    push_str_chars(out, " lacunas=");
    push_usize(out, sm.gaps);
    push_str_chars(out, "\n");
    assert(out@ =~= start + summary_line(*sm));
}

fn push_file_text(out: &mut Vec<char>, f: &FileCoverage)
    ensures
        final(out)@ == old(out)@ + file_text(*f),
{
    let ghost start = out@;
    push_str_chars(out, f.path.as_str());
    push_str_chars(out, " ");
    push_str_chars(out, f.completeness.as_str());
    push_str_chars(out, " regioes=");
    push_usize(out, f.regions.len());
    push_str_chars(out, " relevantes=");
    push_usize(out, f.relevant_lines);
    push_str_chars(out, " cobertas=");
    push_usize(out, f.covered_relevant_lines);
    push_str_chars(out, " disposicao=");
    push_str_chars(out, f.disposition.as_str());
    push_str_chars(out, "\n");
    let ghost mid = out@;
    if f.uncovered_relevant_intervals.len() > 0 {
        push_str_chars(out, "  descobertos: ");
        push_dashed(out, &f.uncovered_relevant_intervals);
        push_str_chars(out, "\n");
    }
    assert(out@ =~= start + file_text(*f));
}

/// The human report of the inventory.
pub fn render_text(inventory: &CoverageInventory) -> (s: String)
    ensures
        exists|ss: Seq<RootSummary>| summaries_ok(ss, inventory.files@) && s@ == inventory_text(*inventory, ss),
{
    let mut out: Vec<char> = Vec::new();
    push_str_chars(&mut out, "cobertura corrente da cartografia\n");
    push_str_chars(&mut out, "autoridade: ");
    push_str_chars(&mut out, inventory.policy_path.as_str());
    push_str_chars(&mut out, "\n");
    let ghost head = out@;
    let summaries = summarize(inventory);
    let mut i: usize = 0;
    assert(summaries@.take(0) =~= Seq::<RootSummary>::empty());
    assert(head + summary_lines(Seq::empty()) =~= head);
    while i < summaries.len()
        invariant
            i <= summaries@.len(),
            out@ == head + summary_lines(summaries@.take(i as int)),
        decreases summaries.len() - i,
    {
        assert(summaries@.take(i + 1).drop_last() =~= summaries@.take(i as int));
        push_summary_line(&mut out, &summaries[i]);
        assert(out@ =~= head + summary_lines(summaries@.take(i + 1)));
        i = i + 1;
    }
    assert(summaries@.take(i as int) =~= summaries@);
    let ghost mid = out@;
    let mut j: usize = 0;
    assert(inventory.files@.take(0) =~= Seq::<FileCoverage>::empty());
    assert(mid + files_text(Seq::empty()) =~= mid);
    while j < inventory.files.len()
        invariant
            j <= inventory.files@.len(),
            out@ == mid + files_text(inventory.files@.take(j as int)),
        decreases inventory.files.len() - j,
    {
        assert(inventory.files@.take(j + 1).drop_last() =~= inventory.files@.take(j as int));
        push_file_text(&mut out, &inventory.files[j]);
        assert(out@ =~= mid + files_text(inventory.files@.take(j + 1)));
        j = j + 1;
    }
    assert(inventory.files@.take(j as int) =~= inventory.files@);
    assert(out@ =~= inventory_text(*inventory, summaries@));
    string_from(out.as_slice())
}

pub open spec fn quoted_list(vs: Seq<Seq<char>>) -> Seq<char>
    decreases vs.len(),
{
    if vs.len() == 0 {
        Seq::empty()
    } else {
        quoted_list(vs.drop_last()) + (if vs.len() > 1 {
            ","@
        } else {
            Seq::empty()
        }) + json_quoted(vs.last())
    }
}

/// A list of texts as a JSON array of strings.
pub open spec fn json_array(vs: Seq<Seq<char>>) -> Seq<char> {
    "["@ + quoted_list(vs) + "]"@
}

pub open spec fn intervals_body(ivs: Seq<LineInterval>) -> Seq<char>
    decreases ivs.len(),
{
    if ivs.len() == 0 {
        Seq::empty()
    } else {
        intervals_body(ivs.drop_last()) + (if ivs.len() > 1 {
            ","@
        } else {
            Seq::empty()
        }) + "{\"start\":"@ + dec(ivs.last().start) + ",\"end\":"@ + dec(ivs.last().end) + "}"@
    }
}

/// Intervals as a JSON array of `{start, end}` objects.
pub open spec fn intervals_json(ivs: Seq<LineInterval>) -> Seq<char> {
    "["@ + intervals_body(ivs) + "]"@
}

pub open spec fn file_json_head(f: FileCoverage) -> Seq<char> {
    "{\"path\":"@ + json_quoted(f.path@) + ",\"root\":"@ + json_quoted(f.root@) + ",\"category\":"@ + json_quoted(
        f.category@,
    ) + ",\"file_enforcement\":"@ + json_quoted(enforcement_name(f.file_enforcement)) + ",\"regions\":"@
        + json_array(string_rows(f.regions@))
}

pub open spec fn file_json_tail(f: FileCoverage) -> Seq<char> {
    ",\"covered_intervals\":"@ + intervals_json(f.covered_intervals@) + ",\"uncovered_relevant_intervals\":"@
        + intervals_json(f.uncovered_relevant_intervals@) + ",\"relevant_lines\":"@ + dec(f.relevant_lines)
        + ",\"covered_relevant_lines\":"@ + dec(f.covered_relevant_lines) + ",\"uncovered_relevant_lines\":"@
        + dec(f.uncovered_relevant_lines) + ",\"completeness\":"@ + json_quoted(completeness_name(f.completeness))
        + ",\"disposition\":"@ + json_quoted(file_disposition_name(f.disposition)) + "}"@
}

#[verifier::opaque]
pub open spec fn file_json(f: FileCoverage) -> Seq<char> {
    file_json_head(f) + file_json_tail(f)
}

pub open spec fn files_json(fs: Seq<FileCoverage>) -> Seq<char>
    decreases fs.len(),
{
    if fs.len() == 0 {
        Seq::empty()
    } else {
        files_json(fs.drop_last()) + (if fs.len() > 1 {
            ","@
        } else {
            Seq::empty()
        }) + file_json(fs.last())
    }
}

pub open spec fn inventory_json(inv: CoverageInventory) -> Seq<char> {
    "{\"schema\":"@ + decimal(inv.schema as nat) + ",\"policy\":"@ + json_quoted(inv.policy_path@) + ",\"files\":["@
        + files_json(inv.files@) + "]}"@
}

fn push_json_array(out: &mut Vec<char>, vs: &Vec<String>)
    ensures
        final(out)@ == old(out)@ + json_array(string_rows(vs@)),
{
    let ghost start = out@;
    let ghost rs = string_rows(vs@);
    push_str_chars(out, "[");
    let mut i: usize = 0;
    assert(rs.take(0) =~= Seq::<Seq<char>>::empty());
    while i < vs.len()
        invariant
            i <= vs@.len(),
            rs == string_rows(vs@),
            out@ == start + "["@ + quoted_list(rs.take(i as int)),
        decreases vs.len() - i,
    {
        assert(rs.take(i + 1).drop_last() =~= rs.take(i as int));
        assert(rs[i as int] == vs@[i as int]@);
        if i > 0 {
            push_str_chars(out, ",");
        }
        push_json_string(out, vs[i].as_str());
        assert(out@ =~= start + "["@ + quoted_list(rs.take(i + 1)));
        i = i + 1;
    }
    assert(rs.take(i as int) =~= rs);
    push_str_chars(out, "]");
    assert(out@ =~= start + json_array(rs));
}

fn push_intervals(out: &mut Vec<char>, ivs: &Vec<LineInterval>)
    ensures
        final(out)@ == old(out)@ + intervals_json(ivs@),
{
    let ghost start = out@;
    push_str_chars(out, "[");
    let mut i: usize = 0;
    assert(ivs@.take(0) =~= Seq::<LineInterval>::empty());
    while i < ivs.len()
        invariant
            i <= ivs@.len(),
            out@ == start + "["@ + intervals_body(ivs@.take(i as int)),
        decreases ivs.len() - i,
    {
        assert(ivs@.take(i + 1).drop_last() =~= ivs@.take(i as int));
        if i > 0 {
            push_str_chars(out, ",");
        }
        push_str_chars(out, "{\"start\":");
        push_usize(out, ivs[i].start);
        push_str_chars(out, ",\"end\":");
        push_usize(out, ivs[i].end);
        push_str_chars(out, "}");
        assert(out@ =~= start + "["@ + intervals_body(ivs@.take(i + 1)));
        i = i + 1;
    }
    assert(ivs@.take(i as int) =~= ivs@);
    push_str_chars(out, "]");
    assert(out@ =~= start + intervals_json(ivs@));
}

/// Intervals as a JSON array of `{start, end}` objects.
pub fn render_intervals(intervals: &Vec<LineInterval>) -> (s: String)
    ensures
        s@ == intervals_json(intervals@),
{
    let mut out: Vec<char> = Vec::new();
    push_intervals(&mut out, intervals);
    assert(out@ =~= intervals_json(intervals@));
    string_from(out.as_slice())
}

fn push_file_json_head(out: &mut Vec<char>, f: &FileCoverage)
    ensures
        final(out)@ == old(out)@ + file_json_head(*f),
{
    let ghost start = out@;
    push_str_chars(out, "{\"path\":");
    push_json_string(out, f.path.as_str());
    push_str_chars(out, ",\"root\":");
    push_json_string(out, f.root.as_str());
    push_str_chars(out, ",\"category\":");
    push_json_string(out, f.category.as_str());
    push_str_chars(out, ",\"file_enforcement\":");
    push_json_string(out, f.file_enforcement.as_str());
    push_str_chars(out, ",\"regions\":");
    push_json_array(out, &f.regions);
    assert(out@ =~= start + file_json_head(*f));
}

fn push_file_json_tail(out: &mut Vec<char>, f: &FileCoverage)
    ensures
        final(out)@ == old(out)@ + file_json_tail(*f),
{
    let ghost start = out@;
    push_str_chars(out, ",\"covered_intervals\":");
    push_intervals(out, &f.covered_intervals);
    push_str_chars(out, ",\"uncovered_relevant_intervals\":");
    push_intervals(out, &f.uncovered_relevant_intervals);
    push_str_chars(out, ",\"relevant_lines\":");
    push_usize(out, f.relevant_lines);
    push_str_chars(out, ",\"covered_relevant_lines\":");
    push_usize(out, f.covered_relevant_lines);
    push_str_chars(out, ",\"uncovered_relevant_lines\":");
    push_usize(out, f.uncovered_relevant_lines);
    push_str_chars(out, ",\"completeness\":");
    push_json_string(out, f.completeness.as_str());
    push_str_chars(out, ",\"disposition\":");
    push_json_string(out, f.disposition.as_str());
    push_str_chars(out, "}");
    assert(out@ =~= start + file_json_tail(*f));
}

fn push_file_json(out: &mut Vec<char>, f: &FileCoverage)
    ensures
        final(out)@ == old(out)@ + file_json(*f),
{
    let ghost start = out@;
    push_file_json_head(out, f);
    push_file_json_tail(out, f);
    reveal(file_json);
    assert(out@ =~= start + file_json(*f));
}

/// The JSON document of the inventory.
pub fn render_json(inventory: &CoverageInventory) -> (s: String)
    ensures
        s@ == inventory_json(*inventory),
{
    let mut out: Vec<char> = Vec::new();
    push_str_chars(&mut out, "{\"schema\":");
    push_decimal(&mut out, inventory.schema);
    push_str_chars(&mut out, ",\"policy\":");
    push_json_string(&mut out, inventory.policy_path.as_str());
    push_str_chars(&mut out, ",\"files\":[");
    let ghost head = out@;
    let mut j: usize = 0;
    assert(inventory.files@.take(0) =~= Seq::<FileCoverage>::empty());
    assert(head + files_json(Seq::empty()) =~= head);
    while j < inventory.files.len()
        invariant
            j <= inventory.files@.len(),
            out@ == head + files_json(inventory.files@.take(j as int)),
        decreases inventory.files.len() - j,
    {
        assert(inventory.files@.take(j + 1).drop_last() =~= inventory.files@.take(j as int));
        if j > 0 {
            push_str_chars(&mut out, ",");
        }
        push_file_json(&mut out, &inventory.files[j]);
        assert(out@ =~= head + files_json(inventory.files@.take(j + 1)));
        j = j + 1;
    }
    assert(inventory.files@.take(j as int) =~= inventory.files@);
    push_str_chars(&mut out, "]}");
    assert(out@ =~= inventory_json(*inventory));
    string_from(out.as_slice())
}

/// Texts separated by `", "`.
pub open spec fn comma_joined(vs: Seq<Seq<char>>) -> Seq<char>
    decreases vs.len(),
{
    if vs.len() == 0 {
        Seq::empty()
    } else {
        comma_joined(vs.drop_last()) + (if vs.len() > 1 {
            ", "@
        } else {
            Seq::empty()
        }) + vs.last()
    }
}

/// The text of a refusal of the policy authority.
pub open spec fn policy_error_text(e: PolicyErrorView) -> Seq<char> {
    match e {
        PolicyErrorView::Io { path, msg } => "E-COVERAGE-POLICY-IO: "@ + path + ": "@ + msg,
        PolicyErrorView::Malformed { line, msg } => "E-COVERAGE-POLICY-MALFORMED: linha "@ + dec(line) + ": "@ + msg,
        PolicyErrorView::UnknownKind { line, kind } => "E-COVERAGE-POLICY-KIND: linha "@ + dec(line)
            + ": registro desconhecido '"@ + kind + "'"@,
        PolicyErrorView::MissingField { line, field } => "E-COVERAGE-POLICY-FIELD: linha "@ + dec(line)
            + ": campo obrigatório '"@ + field + "' ausente ou inválido"@,
        PolicyErrorView::BadSchema { line, found } => "E-COVERAGE-POLICY-SCHEMA: linha "@ + dec(line)
            + ": schema '"@ + found + "' não é 1"@,
        PolicyErrorView::BroadException { line, path, detail } => "E-COVERAGE-POLICY-BROAD: linha "@ + dec(line)
            + ": exceção '"@ + path + "' não é estreita ("@ + detail + ")"@,
        PolicyErrorView::DuplicateScope { root } => "E-COVERAGE-POLICY-DUP-SCOPE: raiz '"@ + root
            + "' declarada duas vezes"@,
        PolicyErrorView::DuplicateException { path } => "E-COVERAGE-POLICY-DUP-EXCEPTION: exceção '"@ + path
            + "' declarada duas vezes"@,
        PolicyErrorView::DuplicateDisposition { key } => "E-COVERAGE-POLICY-DUP-DISPOSITION: disposição '"@ + key
            + "' declarada duas vezes"@,
        PolicyErrorView::ScopeContractMismatch {
            root,
            declared_category,
            declared_enforcement,
            expected_category,
            expected_enforcement,
        } => "E-COVERAGE-POLICY-SCOPE-CONTRACT: a raiz '"@ + root + "' é '"@ + expected_category + "'/'"@
            + expected_enforcement + "' por contrato do código e a política declara '"@ + declared_category
            + "'/'"@ + declared_enforcement
            + "'; o nível de obrigação de uma raiz não é declarável na autoridade"@,
        PolicyErrorView::ScopeRootsMismatch { declared, official } => "E-COVERAGE-POLICY-ROOTS: escopos declarados ["@
            + comma_joined(declared) + "] não cobrem exatamente as raízes oficiais ["@ + comma_joined(official)
            + "]"@,
    }
}

fn push_comma_joined(out: &mut Vec<char>, vs: &Vec<String>)
    ensures
        final(out)@ == old(out)@ + comma_joined(string_rows(vs@)),
{
    let ghost start = out@;
    let ghost rs = string_rows(vs@);
    let mut i: usize = 0;
    assert(rs.take(0) =~= Seq::<Seq<char>>::empty());
    assert(start + comma_joined(Seq::empty()) =~= start);
    while i < vs.len()
        invariant
            i <= vs@.len(),
            rs == string_rows(vs@),
            out@ == start + comma_joined(rs.take(i as int)),
        decreases vs.len() - i,
    {
        assert(rs.take(i + 1).drop_last() =~= rs.take(i as int));
        assert(rs[i as int] == vs@[i as int]@);
        if i > 0 {
            push_str_chars(out, ", ");
        }
        push_str_chars(out, vs[i].as_str());
        assert(out@ =~= start + comma_joined(rs.take(i + 1)));
        i = i + 1;
    }
    assert(rs.take(i as int) =~= rs);
}

impl PolicyError {
    /// The diagnostic text of the refusal.
    pub fn message(&self) -> (s: String)
        ensures
            s@ == policy_error_text(policy_error_view(*self)),
    {
        let mut out: Vec<char> = Vec::new();
        match self {
            PolicyError::Io { path, msg } => {
                push_str_chars(&mut out, "E-COVERAGE-POLICY-IO: ");
                push_str_chars(&mut out, path.as_str());
                push_str_chars(&mut out, ": ");
                push_str_chars(&mut out, msg.as_str());
            },
            PolicyError::Malformed { line, msg } => {
                push_str_chars(&mut out, "E-COVERAGE-POLICY-MALFORMED: linha ");
                push_usize(&mut out, *line);
                push_str_chars(&mut out, ": ");
                push_str_chars(&mut out, msg.as_str());
            },
            PolicyError::UnknownKind { line, kind } => {
                push_str_chars(&mut out, "E-COVERAGE-POLICY-KIND: linha ");
                push_usize(&mut out, *line);
                push_str_chars(&mut out, ": registro desconhecido '");
                push_str_chars(&mut out, kind.as_str());
                push_str_chars(&mut out, "'");
            },
            PolicyError::MissingField { line, field } => {
                push_str_chars(&mut out, "E-COVERAGE-POLICY-FIELD: linha ");
                push_usize(&mut out, *line);
                push_str_chars(&mut out, ": campo obrigatório '");
                push_str_chars(&mut out, field.as_str());
                push_str_chars(&mut out, "' ausente ou inválido");
            },
            PolicyError::BadSchema { line, found } => {
                push_str_chars(&mut out, "E-COVERAGE-POLICY-SCHEMA: linha ");
                push_usize(&mut out, *line);
                push_str_chars(&mut out, ": schema '");
                push_str_chars(&mut out, found.as_str());
                push_str_chars(&mut out, "' não é 1");
            },
            PolicyError::BroadException { line, path, detail } => {
                push_str_chars(&mut out, "E-COVERAGE-POLICY-BROAD: linha ");
                push_usize(&mut out, *line);
                push_str_chars(&mut out, ": exceção '");
                push_str_chars(&mut out, path.as_str());
                push_str_chars(&mut out, "' não é estreita (");
                push_str_chars(&mut out, detail.as_str());
                push_str_chars(&mut out, ")");
            },
            PolicyError::DuplicateScope { root } => {
                push_str_chars(&mut out, "E-COVERAGE-POLICY-DUP-SCOPE: raiz '");
                push_str_chars(&mut out, root.as_str());
                push_str_chars(&mut out, "' declarada duas vezes");
            },
            PolicyError::DuplicateException { path } => {
                push_str_chars(&mut out, "E-COVERAGE-POLICY-DUP-EXCEPTION: exceção '");
                push_str_chars(&mut out, path.as_str());
                push_str_chars(&mut out, "' declarada duas vezes");
            },
            PolicyError::DuplicateDisposition { key } => {
                push_str_chars(&mut out, "E-COVERAGE-POLICY-DUP-DISPOSITION: disposição '");
                push_str_chars(&mut out, key.as_str());
                push_str_chars(&mut out, "' declarada duas vezes");
            },
            PolicyError::ScopeContractMismatch {
                root,
                declared_category,
                declared_enforcement,
                expected_category,
                expected_enforcement,
            } => {
                push_str_chars(&mut out, "E-COVERAGE-POLICY-SCOPE-CONTRACT: a raiz '");
                push_str_chars(&mut out, root.as_str());
                push_str_chars(&mut out, "' é '");
                push_str_chars(&mut out, expected_category);
                push_str_chars(&mut out, "'/'");
                push_str_chars(&mut out, expected_enforcement);
                push_str_chars(&mut out, "' por contrato do código e a política declara '");
                push_str_chars(&mut out, declared_category.as_str());
                push_str_chars(&mut out, "'/'");
                push_str_chars(&mut out, declared_enforcement);
                push_str_chars(&mut out, "'; o nível de obrigação de uma raiz não é declarável na autoridade");
            },
            PolicyError::ScopeRootsMismatch { declared, official } => {
                push_str_chars(&mut out, "E-COVERAGE-POLICY-ROOTS: escopos declarados [");
                push_comma_joined(&mut out, declared);
                push_str_chars(&mut out, "] não cobrem exatamente as raízes oficiais [");
                push_comma_joined(&mut out, official);
                push_str_chars(&mut out, "]");
            },
        }
        assert(out@ =~= policy_error_text(policy_error_view(*self)));
        string_from(out.as_slice())
    }
}

/// The text of a violation.
pub open spec fn violation_text(v: ViolationView) -> Seq<char> {
    match v {
        ViolationView::UncoveredProductionFile { path } => "E-COVERAGE-UNCOVERED: "@ + path
            + " não possui nenhuma região publicada nem exceção aprovada"@,
        ViolationView::StaleException { path } => "E-COVERAGE-EXCEPTION-STALE: exceção declara "@ + path
            + ", que não existe nas raízes oficiais"@,
        ViolationView::UnnecessaryException { path } => "E-COVERAGE-EXCEPTION-UNNECESSARY: "@ + path
            + " já possui cobertura; a exceção deve ser retirada"@,
        ViolationView::ResurrectedDisposedKey { key, disposition } => "E-COVERAGE-DISPOSITION-RESURRECTED: chave "@
            + key + " está declarada como '"@ + disposition + "' e voltou ao catálogo corrente"@,
        ViolationView::MissingDispositionTarget { key, target } => "E-COVERAGE-DISPOSITION-TARGET: destino "@
            + target + " da disposição "@ + key + " não existe no catálogo corrente"@,
        ViolationView::UncoveredRelevantInterval { path, uncovered_lines, intervals, first } =>
            "E-COVERAGE-UNCOVERED-INTERVAL: "@ + path + " tem "@ + dec(uncovered_lines)
            + " linha(s) relevante(s) em "@ + dec(intervals)
            + " intervalo(s) fora de qualquer região (a partir da linha "@ + dec(first.start)
            + "); cartografe a responsabilidade"@,
    }
}

impl CoverageViolation {
    /// The diagnostic text of the violation.
    pub fn message(&self) -> (s: String)
        ensures
            s@ == violation_text(violation_view(*self)),
    {
        let mut out: Vec<char> = Vec::new();
        match self {
            CoverageViolation::UncoveredProductionFile { path } => {
                push_str_chars(&mut out, "E-COVERAGE-UNCOVERED: ");
                push_str_chars(&mut out, path.as_str());
                push_str_chars(&mut out, " não possui nenhuma região publicada nem exceção aprovada");
            },
            CoverageViolation::StaleException { path } => {
                push_str_chars(&mut out, "E-COVERAGE-EXCEPTION-STALE: exceção declara ");
                push_str_chars(&mut out, path.as_str());
                push_str_chars(&mut out, ", que não existe nas raízes oficiais");
            },
            CoverageViolation::UnnecessaryException { path } => {
                push_str_chars(&mut out, "E-COVERAGE-EXCEPTION-UNNECESSARY: ");
                push_str_chars(&mut out, path.as_str());
                push_str_chars(&mut out, " já possui cobertura; a exceção deve ser retirada");
            },
            CoverageViolation::ResurrectedDisposedKey { key, disposition } => {
                push_str_chars(&mut out, "E-COVERAGE-DISPOSITION-RESURRECTED: chave ");
                push_str_chars(&mut out, key.as_str());
                push_str_chars(&mut out, " está declarada como '");
                push_str_chars(&mut out, disposition);
                push_str_chars(&mut out, "' e voltou ao catálogo corrente");
            },
            CoverageViolation::MissingDispositionTarget { key, target } => {
                push_str_chars(&mut out, "E-COVERAGE-DISPOSITION-TARGET: destino ");
                push_str_chars(&mut out, target.as_str());
                push_str_chars(&mut out, " da disposição ");
                push_str_chars(&mut out, key.as_str());
                push_str_chars(&mut out, " não existe no catálogo corrente");
            },
            CoverageViolation::UncoveredRelevantInterval { path, uncovered_lines, intervals, first } => {
                push_str_chars(&mut out, "E-COVERAGE-UNCOVERED-INTERVAL: ");
                push_str_chars(&mut out, path.as_str());
                push_str_chars(&mut out, " tem ");
                push_usize(&mut out, *uncovered_lines);
                push_str_chars(&mut out, " linha(s) relevante(s) em ");
                push_usize(&mut out, *intervals);
                push_str_chars(&mut out, " intervalo(s) fora de qualquer região (a partir da linha ");
                push_usize(&mut out, first.start);
                push_str_chars(&mut out, "); cartografe a responsabilidade");
            },
        }
        assert(out@ =~= violation_text(violation_view(*self)));
        string_from(out.as_slice())
    }
}

proof fn lemma_files_violations_contain(fs: Seq<FileCoverage>, i: int, v: ViolationView)
    requires
        0 <= i < fs.len(),
        file_violations(fs[i]).contains(v),
    ensures
        files_violations(fs).contains(v),
    decreases fs.len(),
{
    let prev = files_violations(fs.drop_last());
    let last = file_violations(fs.last());
    if i == fs.len() - 1 {
        let k = choose|k: int| 0 <= k < last.len() && last[k] == v;
        assert((prev + last)[prev.len() + k] == v);
    } else {
        lemma_files_violations_contain(fs.drop_last(), i, v);
        let k = choose|k: int| 0 <= k < prev.len() && prev[k] == v;
        assert((prev + last)[k] == v);
    }
}

proof fn lemma_exceptions_violations_contain(es: Seq<ExceptionView>, fs: Seq<FileCoverage>, i: int, v: ViolationView)
    requires
        0 <= i < es.len(),
        exception_violation(es[i], fs).contains(v),
    ensures
        exceptions_violations(es, fs).contains(v),
    decreases es.len(),
{
    let prev = exceptions_violations(es.drop_last(), fs);
    let last = exception_violation(es.last(), fs);
    if i == es.len() - 1 {
        let k = choose|k: int| 0 <= k < last.len() && last[k] == v;
        assert((prev + last)[prev.len() + k] == v);
    } else {
        lemma_exceptions_violations_contain(es.drop_last(), fs, i, v);
        let k = choose|k: int| 0 <= k < prev.len() && prev[k] == v;
        assert((prev + last)[k] == v);
    }
}

proof fn lemma_sorted_keeps(s: Seq<ViolationView>, v: ViolationView)
    requires
        s.contains(v),
    ensures
        s.sort_by(violation_le()).contains(v),
{
    broadcast use vstd::seq_lib::group_to_multiset_ensures;

    lemma_violation_le_total_ordering();
    s.lemma_sort_by_ensures(violation_le());
    assert(s.to_multiset().count(v) > 0);
    assert(s.sort_by(violation_le()).to_multiset().count(v) > 0);
}

/// A production file with no region and no approved exception is always
/// reported.
pub proof fn law_gap_is_reported(inv: CoverageInventory, rs: Seq<CodeRegion>, p: PolicyView, i: int)
    requires
        0 <= i < inv.files@.len(),
        inv.files@[i].disposition is Gap,
    ensures
        violations_of(inv, rs, p).contains(ViolationView::UncoveredProductionFile { path: inv.files@[i].path@ }),
{
    let v = ViolationView::UncoveredProductionFile { path: inv.files@[i].path@ };
    assert(file_violations(inv.files@[i])[0] == v);
    lemma_files_violations_contain(inv.files@, i, v);
    let a = files_violations(inv.files@);
    let b = exceptions_violations(p.exceptions, inv.files@);
    let c = dispositions_violations(p.dispositions, rs);
    let k = choose|k: int| 0 <= k < a.len() && a[k] == v;
    assert((a + b + c)[k] == v);
    lemma_sorted_keeps(a + b + c, v);
}

/// A file under enforcement, with no approved exception, that has a
/// relevant line outside every region is always reported: no declaration in
/// the authority turns the gap into an approval.
pub proof fn law_uncovered_interval_is_reported(inv: CoverageInventory, rs: Seq<CodeRegion>, p: PolicyView, i: int)
    requires
        0 <= i < inv.files@.len(),
        inv.files@[i].file_enforcement == Enforcement::Required,
        !(inv.files@[i].disposition is Exception),
        inv.files@[i].uncovered_relevant_intervals@.len() > 0,
    ensures
        violations_of(inv, rs, p).contains(
            ViolationView::UncoveredRelevantInterval {
                path: inv.files@[i].path@,
                uncovered_lines: inv.files@[i].uncovered_relevant_lines,
                intervals: inv.files@[i].uncovered_relevant_intervals@.len() as usize,
                first: inv.files@[i].uncovered_relevant_intervals@[0],
            },
        ),
{
    let f = inv.files@[i];
    let v = ViolationView::UncoveredRelevantInterval {
        path: f.path@,
        uncovered_lines: f.uncovered_relevant_lines,
        intervals: f.uncovered_relevant_intervals@.len() as usize,
        first: f.uncovered_relevant_intervals@[0],
    };
    let fv = file_violations(f);
    assert(fv[fv.len() - 1] == v);
    lemma_files_violations_contain(inv.files@, i, v);
    let a = files_violations(inv.files@);
    let b = exceptions_violations(p.exceptions, inv.files@);
    let c = dispositions_violations(p.dispositions, rs);
    let k = choose|k: int| 0 <= k < a.len() && a[k] == v;
    assert((a + b + c)[k] == v);
    lemma_sorted_keeps(a + b + c, v);
}

proof fn lemma_last_file_none(fs: Seq<FileCoverage>, path: Seq<char>, n: int)
    requires
        0 <= n <= fs.len(),
        forall|j: int| 0 <= j < n ==> (#[trigger] fs[j]).path@ != path,
    ensures
        last_file(fs, path, n) is None,
    decreases n,
{
    if n > 0 {
        lemma_last_file_none(fs, path, n - 1);
    }
}

/// An exception that names a path absent from the official roots is always
/// reported as stale, never kept as silent slack.
pub proof fn law_stale_exception_is_reported(inv: CoverageInventory, rs: Seq<CodeRegion>, p: PolicyView, i: int)
    requires
        0 <= i < p.exceptions.len(),
        forall|j: int| 0 <= j < inv.files@.len() ==> (#[trigger] inv.files@[j]).path@ != p.exceptions[i].path,
    ensures
        violations_of(inv, rs, p).contains(ViolationView::StaleException { path: p.exceptions[i].path }),
{
    let v = ViolationView::StaleException { path: p.exceptions[i].path };
    lemma_last_file_none(inv.files@, p.exceptions[i].path, inv.files@.len() as int);
    assert(exception_violation(p.exceptions[i], inv.files@)[0] == v);
    lemma_exceptions_violations_contain(p.exceptions, inv.files@, i, v);
    let a = files_violations(inv.files@);
    let b = exceptions_violations(p.exceptions, inv.files@);
    let c = dispositions_violations(p.dispositions, rs);
    let k = choose|k: int| 0 <= k < b.len() && b[k] == v;
    assert((a + b + c)[a.len() + k] == v);
    lemma_sorted_keeps(a + b + c, v);
}

/// Line `l` lies in one of the intervals `s`.
pub open spec fn in_some(s: Seq<LineInterval>, l: int) -> bool {
    exists|k: int| 0 <= k < s.len() && #[trigger] s[k].start <= l && l <= s[k].end
}

proof fn lemma_in_some_extend(prev: Seq<LineInterval>, next: Seq<LineInterval>, n: int)
    requires
        prev.len() > 0,
        next.len() == prev.len(),
        forall|k: int| 0 <= k < prev.len() - 1 ==> next[k] == prev[k],
        next.last().start == prev.last().start,
        next.last().end == n,
        prev.last().end == n - 1,
        prev.last().start <= n - 1,
    ensures
        forall|l: int| l < n ==> (#[trigger] in_some(next, l) <==> in_some(prev, l)),
        in_some(next, n),
{
    assert forall|l: int| l < n implies (#[trigger] in_some(next, l) <==> in_some(prev, l)) by {
        if in_some(prev, l) {
            let k = choose|k: int| 0 <= k < prev.len() && #[trigger] prev[k].start <= l && l <= prev[k].end;
            assert(next[k].start <= l && l <= next[k].end);
        }
        if in_some(next, l) {
            let k = choose|k: int| 0 <= k < next.len() && #[trigger] next[k].start <= l && l <= next[k].end;
            assert(prev[k].start <= l && l <= prev[k].end);
        }
    }
    assert(next[next.len() - 1].start <= n && n <= next[next.len() - 1].end);
}

proof fn lemma_in_some_push(prev: Seq<LineInterval>, n: int)
    requires
        1 <= n <= usize::MAX,
        forall|k: int| 0 <= k < prev.len() ==> (#[trigger] prev[k]).end < n,
    ensures
        forall|l: int| l < n ==> (#[trigger] in_some(prev.push(LineInterval { start: n as usize, end: n as usize }), l)
            <==> in_some(prev, l)),
        in_some(prev.push(LineInterval { start: n as usize, end: n as usize }), n),
        !in_some(prev, n),
{
    let next = prev.push(LineInterval { start: n as usize, end: n as usize });
    assert forall|l: int| l < n implies (#[trigger] in_some(next, l) <==> in_some(prev, l)) by {
        if in_some(prev, l) {
            let k = choose|k: int| 0 <= k < prev.len() && #[trigger] prev[k].start <= l && l <= prev[k].end;
            assert(next[k].start <= l && l <= next[k].end);
        }
        if in_some(next, l) {
            let k = choose|k: int| 0 <= k < next.len() && #[trigger] next[k].start <= l && l <= next[k].end;
            assert(prev[k].start <= l && l <= prev[k].end);
        }
    }
    assert(next[next.len() - 1].start <= n && n <= next[next.len() - 1].end);
    if in_some(prev, n) {
        let k = choose|k: int| 0 <= k < prev.len() && #[trigger] prev[k].start <= n && n <= prev[k].end;
    }
}

#[verifier::rlimit(40)]
proof fn lemma_runs_exact(relevant: Seq<bool>, covered: Seq<LineInterval>, n: int)
    requires
        0 <= n <= relevant.len() < usize::MAX,
    ensures
        forall|l: int| 1 <= l <= n ==> (uncovered_line(relevant, covered, l) <==> #[trigger] in_some(
            runs_closed(relevant, covered, n),
            l,
        )),
        forall|k: int| 0 <= k < runs_closed(relevant, covered, n).len() - 1 ==> #[trigger] runs_closed(
            relevant,
            covered,
            n,
        )[k].end + 1 < runs_closed(relevant, covered, n)[k + 1].start,
        runs(relevant, covered, n).1 is None ==> runs(relevant, covered, n).0.len() == 0,
    decreases n,
{
    lemma_runs(relevant, covered, n);
    if n > 0 {
        lemma_runs_exact(relevant, covered, n - 1);
        lemma_runs(relevant, covered, n - 1);
        let (out, open) = runs(relevant, covered, n - 1);
        let prev = runs_closed(relevant, covered, n - 1);
        let next = runs_closed(relevant, covered, n);
        assert forall|k: int| 0 <= k < prev.len() implies (#[trigger] prev[k]).end < n by {}
        if uncovered_line(relevant, covered, n) {
            let single = LineInterval { start: n as usize, end: n as usize };
            match open {
                Some(cur) => {
                    assert(prev == out.push(cur));
                    if cur.end + 1 == n {
                        let ext = LineInterval { start: cur.start, end: n as usize };
                        assert(next == out.push(ext));
                        assert(prev.last() == cur);
                        lemma_in_some_extend(prev, next, n);
                        assert forall|k: int| 0 <= k < next.len() - 1 implies #[trigger] next[k].end + 1
                            < next[k + 1].start by {
                            assert(next[k] == prev[k]);
                            if k + 1 < next.len() - 1 {
                                assert(next[k + 1] == prev[k + 1]);
                            }
                        }
                    } else {
                        assert(next == prev.push(single));
                        lemma_in_some_push(prev, n);
                        assert forall|k: int| 0 <= k < next.len() - 1 implies #[trigger] next[k].end + 1
                            < next[k + 1].start by {
                            assert(next[k] == prev[k]);
                            if k + 1 < next.len() - 1 {
                                assert(next[k + 1] == prev[k + 1]);
                            }
                        }
                    }
                },
                None => {
                    assert(prev == out);
                    assert(next == prev.push(single));
                    lemma_in_some_push(prev, n);
                    assert(next.len() == 1);
                },
            }
            assert forall|l: int| 1 <= l <= n implies (uncovered_line(relevant, covered, l)
                <==> #[trigger] in_some(next, l)) by {
                if l < n {
                    assert(in_some(prev, l) == in_some(next, l));
                }
            }
        } else {
            assert(next == prev);
            lemma_in_some_push(prev, n);
        }
    }
}

/// The uncovered intervals are exactly the maximal runs of relevant lines
/// that no covered interval reaches: a line is in one of them if and only if
/// it is relevant and uncovered, and two of them never touch.
pub proof fn law_uncovered_runs_are_maximal(relevant: Seq<bool>, covered: Seq<LineInterval>)
    requires
        relevant.len() < usize::MAX,
    ensures
        forall|l: int| #[trigger] uncovered_line(relevant, covered, l) <==> in_some(
            uncovered_runs(relevant, covered),
            l,
        ),
        forall|k: int| 0 <= k < uncovered_runs(relevant, covered).len() - 1 ==> #[trigger] uncovered_runs(
            relevant,
            covered,
        )[k].end + 1 < uncovered_runs(relevant, covered)[k + 1].start,
{
    let n = relevant.len() as int;
    lemma_runs_exact(relevant, covered, n);
    lemma_runs(relevant, covered, n);
    let u = uncovered_runs(relevant, covered);
    assert(u == runs_closed(relevant, covered, n));
    assert forall|l: int| #[trigger] uncovered_line(relevant, covered, l) <==> in_some(u, l) by {
        if !(1 <= l <= n) {
            if in_some(u, l) {
                let k = choose|k: int| 0 <= k < u.len() && #[trigger] u[k].start <= l && l <= u[k].end;
            }
        }
    }
}


// ---------------------------------------------------------------------------
// Resurrected keys.
// ---------------------------------------------------------------------------

/// Some region of the catalogue carries the key.
pub open spec fn some_region_has_key(rs: Seq<CodeRegion>, k: Seq<char>) -> bool {
    exists|j: int| 0 <= j < rs.len() && rs[j].key@ == k
}

proof fn lemma_files_no_resurrection(fs: Seq<FileCoverage>, v: ViolationView)
    requires
        files_violations(fs).contains(v),
    ensures
        !(v is ResurrectedDisposedKey),
        !(v is MissingDispositionTarget),
    decreases fs.len(),
{
    if fs.len() > 0 {
        let a = files_violations(fs.drop_last());
        let b = file_violations(fs.last());
        let k = choose|k: int| 0 <= k < (a + b).len() && (a + b)[k] == v;
        if k < a.len() {
            assert(a[k] == v);
            lemma_files_no_resurrection(fs.drop_last(), v);
        } else {
            assert(b[k - a.len()] == v);
        }
    }
}

proof fn lemma_exceptions_no_resurrection(es: Seq<ExceptionView>, fs: Seq<FileCoverage>, v: ViolationView)
    requires
        exceptions_violations(es, fs).contains(v),
    ensures
        !(v is ResurrectedDisposedKey),
        !(v is MissingDispositionTarget),
    decreases es.len(),
{
    if es.len() > 0 {
        let a = exceptions_violations(es.drop_last(), fs);
        let b = exception_violation(es.last(), fs);
        let k = choose|k: int| 0 <= k < (a + b).len() && (a + b)[k] == v;
        if k < a.len() {
            assert(a[k] == v);
            lemma_exceptions_no_resurrection(es.drop_last(), fs, v);
        } else {
            assert(b[k - a.len()] == v);
        }
    }
}

proof fn lemma_targets_no_resurrection(key: Seq<char>, ts: Seq<Seq<char>>, rs: Seq<CodeRegion>, v: ViolationView)
    requires
        target_violations(key, ts, rs).contains(v),
    ensures
        !(v is ResurrectedDisposedKey),
    decreases ts.len(),
{
    if ts.len() > 0 {
        let a = target_violations(key, ts.drop_last(), rs);
        let b = if key_current(rs, ts.last()) {
            Seq::<ViolationView>::empty()
        } else {
            seq![ViolationView::MissingDispositionTarget { key, target: ts.last() }]
        };
        let k = choose|k: int| 0 <= k < (a + b).len() && (a + b)[k] == v;
        if k < a.len() {
            assert(a[k] == v);
            lemma_targets_no_resurrection(key, ts.drop_last(), rs, v);
        } else {
            assert(b[k - a.len()] == v);
        }
    }
}

proof fn lemma_dispositions_resurrection(ds: Seq<DispositionView>, rs: Seq<CodeRegion>, v: ViolationView)
    requires
        dispositions_violations(ds, rs).contains(v),
        v is ResurrectedDisposedKey,
    ensures
        some_region_has_key(rs, v->ResurrectedDisposedKey_key),
    decreases ds.len(),
{
    if ds.len() > 0 {
        let a = dispositions_violations(ds.drop_last(), rs);
        let d = ds.last();
        let r = if key_current(rs, d.key) {
            seq![ViolationView::ResurrectedDisposedKey { key: d.key, disposition: disposition_name(d.kind) }]
        } else {
            Seq::<ViolationView>::empty()
        };
        let t = target_violations(d.key, d.targets, rs);
        assert(disposition_violation(d, rs) == r + t);
        let all = a + (r + t);
        let k = choose|k: int| 0 <= k < all.len() && all[k] == v;
        if k < a.len() {
            assert(a[k] == v);
            lemma_dispositions_resurrection(ds.drop_last(), rs, v);
        } else if k < a.len() + r.len() {
            assert(r[k - a.len()] == v);
            let j = choose|j: int| 0 <= j < rs.len() && (#[trigger] rs[j]).key@ == d.key;
            assert(rs[j].key@ == v->ResurrectedDisposedKey_key);
        } else {
            assert(t[k - a.len() - r.len()] == v);
            lemma_targets_no_resurrection(d.key, d.targets, rs, v);
        }
    }
}

proof fn lemma_dispositions_contain_resurrection(ds: Seq<DispositionView>, rs: Seq<CodeRegion>, i: int)
    requires
        0 <= i < ds.len(),
        some_region_has_key(rs, ds[i].key),
    ensures
        dispositions_violations(ds, rs).contains(
            ViolationView::ResurrectedDisposedKey { key: ds[i].key, disposition: disposition_name(ds[i].kind) },
        ),
    decreases ds.len(),
{
    let v = ViolationView::ResurrectedDisposedKey { key: ds[i].key, disposition: disposition_name(ds[i].kind) };
    let a = dispositions_violations(ds.drop_last(), rs);
    let b = disposition_violation(ds.last(), rs);
    if i == ds.len() - 1 {
        let j = choose|j: int| 0 <= j < rs.len() && rs[j].key@ == ds[i].key;
        assert(key_current(rs, ds[i].key)) by {
            assert((rs[j]).key@ == ds[i].key);
        }
        assert(b[0] == v);
        assert((a + b)[a.len() as int] == v);
    } else {
        assert(ds.drop_last()[i] == ds[i]);
        lemma_dispositions_contain_resurrection(ds.drop_last(), rs, i);
        let k = choose|k: int| 0 <= k < a.len() && a[k] == v;
        assert((a + b)[k] == v);
    }
}

/// A disposed key is reported as resurrected exactly when a region of the
/// current catalogue carries it: every such finding names a key that some
/// region has, and every disposition whose key some region has yields one.
pub proof fn law_resurrection_iff_key_present(inv: CoverageInventory, rs: Seq<CodeRegion>, p: PolicyView, v: ViolationView)
    ensures
        violations_of(inv, rs, p).contains(v) && v is ResurrectedDisposedKey ==> some_region_has_key(
            rs,
            v->ResurrectedDisposedKey_key,
        ),
        forall|i: int|
            0 <= i < p.dispositions.len() && some_region_has_key(rs, #[trigger] p.dispositions[i].key)
                ==> violations_of(inv, rs, p).contains(
                ViolationView::ResurrectedDisposedKey {
                    key: p.dispositions[i].key,
                    disposition: disposition_name(p.dispositions[i].kind),
                },
            ),
{
    broadcast use vstd::seq_lib::group_to_multiset_ensures;

    let a = files_violations(inv.files@);
    let b = exceptions_violations(p.exceptions, inv.files@);
    let c = dispositions_violations(p.dispositions, rs);
    lemma_violation_le_total_ordering();
    (a + b + c).lemma_sort_by_ensures(violation_le());
    if violations_of(inv, rs, p).contains(v) && v is ResurrectedDisposedKey {
        assert(violations_of(inv, rs, p).to_multiset().count(v) > 0);
        assert((a + b + c).contains(v));
        let k = choose|k: int| 0 <= k < (a + b + c).len() && (a + b + c)[k] == v;
        if k < a.len() {
            assert(a[k] == v);
            lemma_files_no_resurrection(inv.files@, v);
        } else if k < a.len() + b.len() {
            assert(b[k - a.len()] == v);
            lemma_exceptions_no_resurrection(p.exceptions, inv.files@, v);
        } else {
            assert(c[k - a.len() - b.len()] == v);
            lemma_dispositions_resurrection(p.dispositions, rs, v);
        }
    }
    assert forall|i: int|
        0 <= i < p.dispositions.len() && some_region_has_key(rs, #[trigger] p.dispositions[i].key)
            implies violations_of(inv, rs, p).contains(
            ViolationView::ResurrectedDisposedKey {
                key: p.dispositions[i].key,
                disposition: disposition_name(p.dispositions[i].kind),
            },
        ) by {
        let w = ViolationView::ResurrectedDisposedKey {
            key: p.dispositions[i].key,
            disposition: disposition_name(p.dispositions[i].kind),
        };
        lemma_dispositions_contain_resurrection(p.dispositions, rs, i);
        let k = choose|k: int| 0 <= k < c.len() && c[k] == w;
        assert((a + b + c)[a.len() + b.len() + k] == w);
        lemma_sorted_keeps(a + b + c, w);
    }
}

// ---------------------------------------------------------------------------
// Targets of dispositions.
// ---------------------------------------------------------------------------

proof fn lemma_targets_missing(key: Seq<char>, ts: Seq<Seq<char>>, rs: Seq<CodeRegion>, v: ViolationView)
    requires
        target_violations(key, ts, rs).contains(v),
    ensures
        v is MissingDispositionTarget,
        v->MissingDispositionTarget_key == key,
        ts.contains(v->MissingDispositionTarget_target),
        !some_region_has_key(rs, v->MissingDispositionTarget_target),
    decreases ts.len(),
{
    if ts.len() > 0 {
        let a = target_violations(key, ts.drop_last(), rs);
        let b = if key_current(rs, ts.last()) {
            Seq::<ViolationView>::empty()
        } else {
            seq![ViolationView::MissingDispositionTarget { key, target: ts.last() }]
        };
        let k = choose|k: int| 0 <= k < (a + b).len() && (a + b)[k] == v;
        if k < a.len() {
            assert(a[k] == v);
            lemma_targets_missing(key, ts.drop_last(), rs, v);
            let m = choose|m: int| 0 <= m < ts.drop_last().len() && ts.drop_last()[m] == v->MissingDispositionTarget_target;
            assert(ts[m] == v->MissingDispositionTarget_target);
        } else {
            assert(b[k - a.len()] == v);
            assert(ts[ts.len() - 1] == v->MissingDispositionTarget_target);
            if some_region_has_key(rs, ts.last()) {
                let j = choose|j: int| 0 <= j < rs.len() && rs[j].key@ == ts.last();
                assert(key_current(rs, ts.last())) by {
                    assert((rs[j]).key@ == ts.last());
                }
            }
        }
    }
}

proof fn lemma_targets_contain_missing(key: Seq<char>, ts: Seq<Seq<char>>, rs: Seq<CodeRegion>, i: int)
    requires
        0 <= i < ts.len(),
        !some_region_has_key(rs, ts[i]),
    ensures
        target_violations(key, ts, rs).contains(ViolationView::MissingDispositionTarget { key, target: ts[i] }),
    decreases ts.len(),
{
    let w = ViolationView::MissingDispositionTarget { key, target: ts[i] };
    let a = target_violations(key, ts.drop_last(), rs);
    if i == ts.len() - 1 {
        assert(!key_current(rs, ts.last()));
        let b = seq![w];
        assert(target_violations(key, ts, rs) == a + b);
        assert((a + b)[a.len() as int] == w);
    } else {
        assert(ts.drop_last()[i] == ts[i]);
        lemma_targets_contain_missing(key, ts.drop_last(), rs, i);
        let k = choose|k: int| 0 <= k < a.len() && a[k] == w;
        let b = if key_current(rs, ts.last()) {
            Seq::<ViolationView>::empty()
        } else {
            seq![ViolationView::MissingDispositionTarget { key, target: ts.last() }]
        };
        assert(target_violations(key, ts, rs) == a + b);
        assert((a + b)[k] == w);
    }
}

proof fn lemma_dispositions_missing(ds: Seq<DispositionView>, rs: Seq<CodeRegion>, v: ViolationView)
    requires
        dispositions_violations(ds, rs).contains(v),
        v is MissingDispositionTarget,
    ensures
        !some_region_has_key(rs, v->MissingDispositionTarget_target),
        exists|i: int|
            0 <= i < ds.len() && (#[trigger] ds[i]).key == v->MissingDispositionTarget_key
                && ds[i].targets.contains(v->MissingDispositionTarget_target),
    decreases ds.len(),
{
    if ds.len() > 0 {
        let a = dispositions_violations(ds.drop_last(), rs);
        let d = ds.last();
        let r = if key_current(rs, d.key) {
            seq![ViolationView::ResurrectedDisposedKey { key: d.key, disposition: disposition_name(d.kind) }]
        } else {
            Seq::<ViolationView>::empty()
        };
        let t = target_violations(d.key, d.targets, rs);
        assert(disposition_violation(d, rs) == r + t);
        let all = a + (r + t);
        let k = choose|k: int| 0 <= k < all.len() && all[k] == v;
        if k < a.len() {
            assert(a[k] == v);
            lemma_dispositions_missing(ds.drop_last(), rs, v);
            let i = choose|i: int|
                0 <= i < ds.drop_last().len() && (#[trigger] ds.drop_last()[i]).key == v->MissingDispositionTarget_key
                    && ds.drop_last()[i].targets.contains(v->MissingDispositionTarget_target);
            assert(ds[i] == ds.drop_last()[i]);
        } else if k < a.len() + r.len() {
            assert(r[k - a.len()] == v);
        } else {
            assert(t[k - a.len() - r.len()] == v);
            lemma_targets_missing(d.key, d.targets, rs, v);
            assert(ds[ds.len() - 1] == d);
        }
    }
}

proof fn lemma_dispositions_contain_missing(ds: Seq<DispositionView>, rs: Seq<CodeRegion>, i: int, j: int)
    requires
        0 <= i < ds.len(),
        0 <= j < ds[i].targets.len(),
        !some_region_has_key(rs, ds[i].targets[j]),
    ensures
        dispositions_violations(ds, rs).contains(
            ViolationView::MissingDispositionTarget { key: ds[i].key, target: ds[i].targets[j] },
        ),
    decreases ds.len(),
{
    let w = ViolationView::MissingDispositionTarget { key: ds[i].key, target: ds[i].targets[j] };
    let a = dispositions_violations(ds.drop_last(), rs);
    let b = disposition_violation(ds.last(), rs);
    if i == ds.len() - 1 {
        let d = ds.last();
        let r = if key_current(rs, d.key) {
            seq![ViolationView::ResurrectedDisposedKey { key: d.key, disposition: disposition_name(d.kind) }]
        } else {
            Seq::<ViolationView>::empty()
        };
        let t = target_violations(d.key, d.targets, rs);
        assert(b == r + t);
        lemma_targets_contain_missing(d.key, d.targets, rs, j);
        let k = choose|k: int| 0 <= k < t.len() && t[k] == w;
        assert((r + t)[r.len() + k] == w);
        assert((a + b)[a.len() + r.len() + k] == w);
    } else {
        assert(ds.drop_last()[i] == ds[i]);
        lemma_dispositions_contain_missing(ds.drop_last(), rs, i, j);
        let k = choose|k: int| 0 <= k < a.len() && a[k] == w;
        assert((a + b)[k] == w);
    }
}

/// A missing disposition target is reported exactly for the targets that no
/// region of the current catalogue carries: every such finding names a target
/// of a disposition of that key that no region has, and every target of a
/// disposition that no region has yields one.
pub proof fn law_missing_target_iff_key_absent(inv: CoverageInventory, rs: Seq<CodeRegion>, p: PolicyView, v: ViolationView)
    ensures
        violations_of(inv, rs, p).contains(v) && v is MissingDispositionTarget ==> {
            &&& !some_region_has_key(rs, v->MissingDispositionTarget_target)
            &&& exists|i: int|
                0 <= i < p.dispositions.len() && (#[trigger] p.dispositions[i]).key == v->MissingDispositionTarget_key
                    && p.dispositions[i].targets.contains(v->MissingDispositionTarget_target)
        },
        forall|i: int, j: int|
            0 <= i < p.dispositions.len() && 0 <= j < p.dispositions[i].targets.len() && !some_region_has_key(
                rs,
                #[trigger] p.dispositions[i].targets[j],
            ) ==> violations_of(inv, rs, p).contains(
                ViolationView::MissingDispositionTarget {
                    key: p.dispositions[i].key,
                    target: p.dispositions[i].targets[j],
                },
            ),
{
    broadcast use vstd::seq_lib::group_to_multiset_ensures;

    let a = files_violations(inv.files@);
    let b = exceptions_violations(p.exceptions, inv.files@);
    let c = dispositions_violations(p.dispositions, rs);
    lemma_violation_le_total_ordering();
    (a + b + c).lemma_sort_by_ensures(violation_le());
    if violations_of(inv, rs, p).contains(v) && v is MissingDispositionTarget {
        assert(violations_of(inv, rs, p).to_multiset().count(v) > 0);
        assert((a + b + c).contains(v));
        let k = choose|k: int| 0 <= k < (a + b + c).len() && (a + b + c)[k] == v;
        if k < a.len() {
            assert(a[k] == v);
            lemma_files_no_resurrection(inv.files@, v);
        } else if k < a.len() + b.len() {
            assert(b[k - a.len()] == v);
            lemma_exceptions_no_resurrection(p.exceptions, inv.files@, v);
        } else {
            assert(c[k - a.len() - b.len()] == v);
            lemma_dispositions_missing(p.dispositions, rs, v);
        }
    }
    assert forall|i: int, j: int|
        0 <= i < p.dispositions.len() && 0 <= j < p.dispositions[i].targets.len() && !some_region_has_key(
            rs,
            #[trigger] p.dispositions[i].targets[j],
        ) implies violations_of(inv, rs, p).contains(
            ViolationView::MissingDispositionTarget {
                key: p.dispositions[i].key,
                target: p.dispositions[i].targets[j],
            },
        ) by {
        let w = ViolationView::MissingDispositionTarget {
            key: p.dispositions[i].key,
            target: p.dispositions[i].targets[j],
        };
        lemma_dispositions_contain_missing(p.dispositions, rs, i, j);
        let k = choose|k: int| 0 <= k < c.len() && c[k] == w;
        assert((a + b + c)[a.len() + b.len() + k] == w);
        lemma_sorted_keeps(a + b + c, w);
    }
}

} // verus!
