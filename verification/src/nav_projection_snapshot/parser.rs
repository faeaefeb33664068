//! The strict snapshot parser: only the known tables and keys, then the whole
//! structural and semantic validation of the schema.
use super::toml::{
    doc_view, parse_raw, raw_document, scalar_view, table_get, table_view, DocView, RawDocument,
    Scalar, ScalarView, Table,
};
use super::{
    clone_rule, rule_is_override, rule_min_schema, rule_op, rule_rank, rule_selector, rule_view,
    rules_view, authority_supports, FailureView, HarnessFailure, Measures, ProjectionSnapshot, Rule,
    RuleView, SchemaAuthority, SnapshotState, SnapshotView, TomlError, state_name,
};
use crate::native_symbol::{digit_value, is_digit};
use crate::text::{
    chars_of, decimal, has_prefix, push_all, push_decimal, push_str_chars, seq_lt, split,
    string_from, string_rows, trim, vec_lt,
};
use vstd::prelude::*;

verus! {

/// `[a-z0-9]`.
pub open spec fn id_alnum(c: char) -> bool {
    ('a' <= c && c <= 'z') || ('0' <= c && c <= '9')
}

/// `.`, `-` or `_`.
pub open spec fn id_separator(c: char) -> bool {
    c == '.' || c == '-' || c == '_'
}

/// An identifier that can become a file name without ambiguity: 1 to 64
/// characters of `[a-z0-9]`, separated by single `.`, `-` or `_`, starting and
/// ending with `[a-z0-9]`.
pub open spec fn id_safe(v: Seq<char>) -> bool {
    &&& 0 < v.len() <= 64
    &&& id_alnum(v[0])
    &&& id_alnum(v.last())
    &&& forall|i: int| 0 <= i < v.len() ==> id_alnum(#[trigger] v[i]) || id_separator(v[i])
    &&& forall|i: int| 0 <= i < v.len() - 1 ==> !(id_separator(#[trigger] v[i]) && id_separator(v[i + 1]))
}

pub open spec fn check_id(v: Seq<char>, field: Seq<char>) -> Result<(), FailureView> {
    if id_safe(v) {
        Ok(())
    } else {
        Err(FailureView::IdUnsafe { field, value: v })
    }
}

/// A lower-case hexadecimal digit.
pub open spec fn is_hex_lower(c: char) -> bool {
    ('0' <= c && c <= '9') || ('a' <= c && c <= 'f')
}

pub open spec fn hex_digit_value(c: char) -> nat {
    if '0' <= c && c <= '9' {
        ((c as u32) - ('0' as u32)) as nat
    } else {
        ((c as u32) - ('a' as u32) + 10) as nat
    }
}

/// Value of a run of hexadecimal digits.
pub open spec fn hex_value(s: Seq<char>) -> nat
    decreases s.len(),
{
    if s.len() == 0 {
        0
    } else {
        hex_value(s.drop_last()) * 16 + hex_digit_value(s.last())
    }
}

/// A hash in canonical form: `fnv1a64:` and 16 lower-case hexadecimal digits.
pub open spec fn hash_well_formed(v: Seq<char>) -> bool {
    &&& has_prefix(v, "fnv1a64:"@)
    &&& v.len() == 24
    &&& forall|i: int| 8 <= i < 24 ==> is_hex_lower(#[trigger] v[i])
}

pub open spec fn check_hash(v: Seq<char>, field: Seq<char>) -> Result<u64, FailureView> {
    if hash_well_formed(v) {
        Ok(hex_value(v.skip(8)) as u64)
    } else {
        Err(FailureView::HashInvalid { field, value: v })
    }
}

/// A repository-relative path: not empty, not absolute, no `..` component.
pub open spec fn check_path(v: Seq<char>, field: Seq<char>) -> Result<(), FailureView> {
    if v.len() == 0 {
        Err(FailureView::InvalidField { field, msg: "path vazio"@ })
    } else if v[0] == '/' {
        Err(FailureView::PathAbsolute { field, value: v })
    } else if split(v, seq!['/']).contains(".."@) {
        Err(FailureView::PathTraversal { field, value: v })
    } else {
        Ok(())
    }
}

/// The first key of a table outside the allowed ones, if any.
pub open spec fn unknown_key(t: Seq<(Seq<char>, ScalarView)>, allowed: Seq<Seq<char>>) -> Option<
    Seq<char>,
>
    decreases t.len(),
{
    if t.len() == 0 {
        None
    } else if !allowed.contains(t[0].0) {
        Some(t[0].0)
    } else {
        unknown_key(t.drop_first(), allowed)
    }
}

pub open spec fn check_known(
    t: Seq<(Seq<char>, ScalarView)>,
    allowed: Seq<Seq<char>>,
    scope: Seq<char>,
) -> Result<(), FailureView> {
    match unknown_key(t, allowed) {
        Some(k) => Err(FailureView::InvalidField { field: scope + k, msg: "chave desconhecida"@ }),
        None => Ok(()),
    }
}

pub open spec fn text_expected() -> Seq<char> {
    "esperado texto entre aspas"@
}

pub open spec fn req_text(t: Seq<(Seq<char>, ScalarView)>, key: Seq<char>, scope: Seq<char>) -> Result<
    Seq<char>,
    FailureView,
> {
    match table_get(t, key) {
        Some(ScalarView::Text(v)) => Ok(v),
        Some(_) => Err(FailureView::InvalidField { field: scope + key, msg: text_expected() }),
        None => Err(FailureView::MissingField { field: scope + key }),
    }
}

pub open spec fn opt_text(t: Seq<(Seq<char>, ScalarView)>, key: Seq<char>, scope: Seq<char>) -> Result<
    Option<Seq<char>>,
    FailureView,
> {
    match table_get(t, key) {
        Some(ScalarView::Text(v)) => Ok(Some(v)),
        Some(_) => Err(FailureView::InvalidField { field: scope + key, msg: text_expected() }),
        None => Ok(None),
    }
}

pub open spec fn req_integer(t: Seq<(Seq<char>, ScalarView)>, key: Seq<char>, scope: Seq<char>) -> Result<
    u64,
    FailureView,
> {
    match table_get(t, key) {
        Some(ScalarView::Integer(v)) => Ok(v),
        Some(_) => Err(FailureView::InvalidField { field: scope + key, msg: "esperado inteiro, não texto"@ }),
        None => Err(FailureView::MissingField { field: scope + key }),
    }
}

pub open spec fn opt_list(t: Seq<(Seq<char>, ScalarView)>, key: Seq<char>, scope: Seq<char>) -> Result<
    Seq<Seq<char>>,
    FailureView,
> {
    match table_get(t, key) {
        Some(ScalarView::List(v)) => Ok(v),
        Some(_) => Err(FailureView::InvalidField { field: scope + key, msg: "esperado lista de textos"@ }),
        None => Ok(Seq::empty()),
    }
}

pub open spec fn req_nonempty(t: Seq<(Seq<char>, ScalarView)>, key: Seq<char>, scope: Seq<char>) -> Result<
    Seq<char>,
    FailureView,
> {
    match req_text(t, key, scope) {
        Ok(v) => if v.len() == 0 {
            Err(FailureView::InvalidField { field: scope + key, msg: "valor vazio"@ })
        } else {
            Ok(v)
        },
        Err(e) => Err(e),
    }
}

/// Whether the authority and the declared schema admit every rule; the
/// first rule that is refused decides the failure.
pub open spec fn rules_admitted(schema: u64, rs: Seq<RuleView>, a: SchemaAuthority) -> Result<
    (),
    FailureView,
>
    decreases rs.len(),
{
    if rs.len() == 0 {
        Ok(())
    } else {
        let r = rs[0];
        if a == SchemaAuthority::Recipe && r is MaterializeRegion {
            Err(FailureView::OperationOutsideAuthority { authority: a, op: rule_op(r) })
        } else if rule_min_schema(r, a) > schema {
            Err(
                FailureView::CapabilityRequiresSchema {
                    authority: a,
                    capability: "op '"@ + rule_op(r) + "'"@,
                    found_schema: schema,
                    required_schema: rule_min_schema(r, a),
                },
            )
        } else {
            rules_admitted(schema, rs.drop_first(), a)
        }
    }
}

/// The validation of authority and capability of a model.
pub open spec fn rules_check(schema: u64, rs: Seq<RuleView>, a: SchemaAuthority) -> Result<
    (),
    FailureView,
> {
    if !authority_supports(a, schema) {
        Err(FailureView::SchemaUnknown { authority: a, found: schema })
    } else {
        rules_admitted(schema, rs, a)
    }
}

/// A rule the authority admits under the declared schema.
pub open spec fn rule_admitted(r: RuleView, schema: u64, a: SchemaAuthority) -> bool {
    !(a == SchemaAuthority::Recipe && r is MaterializeRegion) && rule_min_schema(r, a) <= schema
}

/// Why the authority refuses a rule under the declared schema.
pub open spec fn rule_refusal(r: RuleView, schema: u64, a: SchemaAuthority) -> FailureView {
    if a == SchemaAuthority::Recipe && r is MaterializeRegion {
        FailureView::OperationOutsideAuthority { authority: a, op: rule_op(r) }
    } else {
        FailureView::CapabilityRequiresSchema {
            authority: a,
            capability: "op '"@ + rule_op(r) + "'"@,
            found_schema: schema,
            required_schema: rule_min_schema(r, a),
        }
    }
}

pub(crate) proof fn lemma_admitted_all(schema: u64, rs: Seq<RuleView>, a: SchemaAuthority)
    requires
        forall|k: int| 0 <= k < rs.len() ==> rule_admitted(#[trigger] rs[k], schema, a),
    ensures
        rules_admitted(schema, rs, a) == Ok::<(), FailureView>(()),
    decreases rs.len(),
{
    if rs.len() > 0 {
        assert(rule_admitted(rs[0], schema, a));
        let t = rs.drop_first();
        assert forall|k: int| 0 <= k < t.len() implies rule_admitted(#[trigger] t[k], schema, a) by {
            assert(t[k] == rs[k + 1]);
        }
        lemma_admitted_all(schema, t, a);
    }
}

proof fn lemma_admitted_first(schema: u64, rs: Seq<RuleView>, a: SchemaAuthority, k: int)
    requires
        0 <= k < rs.len(),
        !rule_admitted(rs[k], schema, a),
        forall|j: int| 0 <= j < k ==> rule_admitted(#[trigger] rs[j], schema, a),
    ensures
        rules_admitted(schema, rs, a) == Err::<(), FailureView>(rule_refusal(rs[k], schema, a)),
    decreases k,
{
    if k > 0 {
        assert(rule_admitted(rs[0], schema, a));
        let t = rs.drop_first();
        assert(t[k - 1] == rs[k]);
        assert forall|j: int| 0 <= j < k - 1 implies rule_admitted(#[trigger] t[j], schema, a) by {
            assert(t[j] == rs[j + 1]);
        }
        lemma_admitted_first(schema, t, a, k - 1);
    }
}

/// The authority and capability check of a set of rules: a schema the
/// authority does not know is refused first; otherwise every rule is
/// admitted exactly when none is a materialization under the recipe
/// authority and none needs a later schema, and the first rule that is not
/// admitted decides the failure.
pub proof fn law_rules_check_first_refusal(schema: u64, rs: Seq<RuleView>, a: SchemaAuthority)
    ensures
        !authority_supports(a, schema) ==> rules_check(schema, rs, a) == Err::<(), FailureView>(
            FailureView::SchemaUnknown { authority: a, found: schema },
        ),
        authority_supports(a, schema) && (forall|k: int| 0 <= k < rs.len() ==> rule_admitted(#[trigger] rs[k], schema, a))
            ==> rules_check(schema, rs, a) == Ok::<(), FailureView>(()),
        forall|k: int|
            0 <= k < rs.len() && authority_supports(a, schema) && !rule_admitted(#[trigger] rs[k], schema, a) && (forall|j: int|
                0 <= j < k ==> rule_admitted(#[trigger] rs[j], schema, a)) ==> rules_check(schema, rs, a) == Err::<
                (),
                FailureView,
            >(rule_refusal(rs[k], schema, a)),
{
    if authority_supports(a, schema) {
        if forall|k: int| 0 <= k < rs.len() ==> rule_admitted(#[trigger] rs[k], schema, a) {
            lemma_admitted_all(schema, rs, a);
        }
        assert forall|k: int|
            0 <= k < rs.len() && !rule_admitted(#[trigger] rs[k], schema, a) && (forall|j: int|
                0 <= j < k ==> rule_admitted(#[trigger] rs[j], schema, a)) implies rules_check(schema, rs, a)
            == Err::<(), FailureView>(rule_refusal(rs[k], schema, a)) by {
            lemma_admitted_first(schema, rs, a, k);
        }
    }
}

pub open spec fn result_unit_view(r: Result<(), HarnessFailure>) -> Result<(), FailureView> {
    match r {
        Ok(()) => Ok(()),
        Err(f) => Err(super::failure_view(f)),
    }
}

fn text_of(v: &Vec<char>) -> (s: String)
    ensures
        s@ == v@,
{
    string_from(v)
}

fn owned(v: &str) -> (s: String)
    ensures
        s@ == v@,
{
    v.to_owned()
}

fn joined(a: &str, b: &str) -> (s: String)
    ensures
        s@ == a@ + b@,
{
    let mut v: Vec<char> = Vec::new();
    push_str_chars(&mut v, a);
    push_str_chars(&mut v, b);
    string_from(&v)
}

/// Whether an identifier is safe to be a file name.
pub fn validate_id(value: &str, field: &str) -> (r: Result<(), HarnessFailure>)
    ensures
        result_unit_view(r) == check_id(value@, field@),
{
    let v = chars_of(value);
    let n = v.len();
    let fail = HarnessFailure::IdUnsafe { field: owned(field), value: owned(value) };
    if n == 0 || n > 64 {
        return Err(fail);
    }
    let first = v[0];
    let last = v[n - 1];
    if !(('a' <= first && first <= 'z') || ('0' <= first && first <= '9')) || !(('a' <= last && last
        <= 'z') || ('0' <= last && last <= '9')) {
        return Err(fail);
    }
    let mut previous_separator = false;
    let mut i: usize = 0;
    while i < n
        invariant
            n == v@.len(),
            v@ == value@,
            super::failure_view(fail) == (FailureView::IdUnsafe { field: field@, value: value@ }),
            i <= n,
            forall|j: int| 0 <= j < i ==> id_alnum(#[trigger] v@[j]) || id_separator(v@[j]),
            forall|j: int| 0 <= j < i - 1 ==> !(id_separator(#[trigger] v@[j]) && id_separator(v@[j + 1])),
            i > 0 ==> previous_separator == id_separator(v@[i - 1]),
            i == 0 ==> !previous_separator,
        decreases n - i,
    {
        let c = v[i];
        if ('a' <= c && c <= 'z') || ('0' <= c && c <= '9') {
            previous_separator = false;
        } else if c == '.' || c == '-' || c == '_' {
            if previous_separator {
                assert(id_separator(v@[i - 1]) && id_separator(v@[(i - 1) + 1]));
                return Err(fail);
            }
            previous_separator = true;
        } else {
            assert(!(id_alnum(v@[i as int]) || id_separator(v@[i as int])));
            return Err(fail);
        }
        i = i + 1;
    }
    Ok(())
}

pub open spec fn pow16(k: nat) -> nat
    decreases k,
{
    if k == 0 {
        1
    } else {
        16 * pow16((k - 1) as nat)
    }
}

pub(crate) proof fn lemma_hex_value_bound(s: Seq<char>)
    requires
        forall|i: int| 0 <= i < s.len() ==> is_hex_lower(#[trigger] s[i]),
    ensures
        hex_value(s) < pow16(s.len()),
    decreases s.len(),
{
    if s.len() > 0 {
        lemma_hex_value_bound(s.drop_last());
        let h = hex_value(s.drop_last());
        let p = pow16((s.len() - 1) as nat);
        let d = hex_digit_value(s.last());
        assert(is_hex_lower(s[s.len() - 1]));
        assert(d < 16);
        assert(h * 16 + d < 16 * p) by (nonlinear_arith)
            requires
                h < p,
                d < 16,
        ;
    }
}

/// Checks a hash in canonical form and returns the number it spells.
pub fn validate_hash(value: &str, field: &str) -> (r: Result<u64, HarnessFailure>)
    ensures
        match check_hash(value@, field@) {
            Ok(h) => r == Ok::<u64, HarnessFailure>(h),
            Err(f) => r matches Err(e) && super::failure_view(e) == f,
        },
{
    let v = chars_of(value);
    let fail = HarnessFailure::HashInvalid { field: owned(field), value: owned(value) };
    let prefix = chars_of("fnv1a64:");
    proof {
        reveal_strlit("fnv1a64:");
    }
    if !crate::text::matches_at(&v, 0, &prefix) || v.len() != 24 {
        return Err(fail);
    }
    let mut h: u64 = 0;
    let mut i: usize = 8;
    assert(v@.skip(8).take(0) =~= Seq::<char>::empty());
    while i < 24
        invariant
            8 <= i <= 24,
            v@.len() == 24,
            v@ == value@,
            super::failure_view(fail) == (FailureView::HashInvalid { field: field@, value: value@ }),
            forall|j: int| 8 <= j < i ==> is_hex_lower(#[trigger] v@[j]),
            h == hex_value(v@.skip(8).take(i - 8)),
        decreases 24 - i,
    {
        let c = v[i];
        let d: u64 = if '0' <= c && c <= '9' {
            (c as u32 - '0' as u32) as u64
        } else if 'a' <= c && c <= 'f' {
            (c as u32 - 'a' as u32 + 10) as u64
        } else {
            assert(!is_hex_lower(v@[i as int]));
            return Err(fail);
        };
        proof {
            let t = v@.skip(8).take(i + 1 - 8);
            assert(t.drop_last() =~= v@.skip(8).take(i - 8));
            assert(t.last() == c);
            assert forall|j: int| 0 <= j < t.len() implies is_hex_lower(#[trigger] t[j]) by {
                assert(t[j] == v@[8 + j]);
            }
            lemma_hex_value_bound(t);
            assert(pow16(t.len()) <= pow16(16)) by {
                lemma_pow16_mono(t.len(), 16);
            }
            assert(pow16(16) == 0x1_0000_0000_0000_0000) by {
                reveal_with_fuel(pow16, 17);
            }
        }
        h = h * 16 + d;
        i = i + 1;
    }
    assert(v@.skip(8).take(16) =~= v@.skip(8));
    Ok(h)
}

proof fn lemma_pow16_mono(a: nat, b: nat)
    requires
        a <= b,
    ensures
        pow16(a) <= pow16(b),
    decreases b,
{
    if a < b {
        lemma_pow16_mono(a, (b - 1) as nat);
    }
}

/// A repository-relative path: not empty, not absolute, no `..` component.
pub fn validate_relative_path(value: &str, field: &str) -> (r: Result<(), HarnessFailure>)
    ensures
        result_unit_view(r) == check_path(value@, field@),
{
    let v = chars_of(value);
    if v.len() == 0 {
        return Err(HarnessFailure::InvalidField { field: owned(field), msg: owned("path vazio") });
    }
    if v[0] == '/' {
        return Err(HarnessFailure::PathAbsolute { field: owned(field), value: owned(value) });
    }
    let slash = crate::text::one_char('/');
    let parts = crate::text::split_vec(&v, &slash);
    let dots = chars_of("..");
    let mut i: usize = 0;
    while i < parts.len()
        invariant
            i <= parts@.len(),
            v@ == value@,
            v@.len() > 0 && v@[0] != '/',
            dots@ == ".."@,
            parts@.len() == split(v@, seq!['/']).len(),
            forall|k: int| 0 <= k < parts@.len() ==> #[trigger] parts@[k]@ == split(v@, seq!['/'])[k],
            forall|k: int| 0 <= k < i ==> split(v@, seq!['/'])[k] != ".."@,
        decreases parts.len() - i,
    {
        if crate::text::vec_eq(&parts[i], &dots) {
            assert(split(v@, seq!['/'])[i as int] == ".."@);
            return Err(HarnessFailure::PathTraversal { field: owned(field), value: owned(value) });
        }
        i = i + 1;
    }
    assert(!split(v@, seq!['/']).contains(".."@));
    Ok(())
}

/// The texts of a list of string slices.
pub open spec fn strs(v: Seq<&str>) -> Seq<Seq<char>> {
    Seq::new(v.len(), |i: int| v[i]@)
}

/// The keys of the root table.
pub open spec fn root_keys() -> Seq<Seq<char>> {
    seq!["schema"@, "id"@, "state"@, "predecessor"@, "justification"@]
}

fn root_keys_list() -> (v: Vec<&'static str>)
    ensures
        strs(v@) == root_keys(),
{
    let mut v: Vec<&'static str> = Vec::new();
    v.push("schema");
    v.push("id");
    v.push("state");
    v.push("predecessor");
    v.push("justification");
    assert(strs(v@) =~= root_keys());
    v
}

/// The keys of `[reconstruction]`.
pub open spec fn reconstruction_keys() -> Seq<Seq<char>> {
    seq!["expected_overrides"@, "expected_exclusions"@, "expected_materializations"@, "base_snapshot"@, "recipes"@]
}

fn reconstruction_keys_list() -> (v: Vec<&'static str>)
    ensures
        strs(v@) == reconstruction_keys(),
{
    let mut v: Vec<&'static str> = Vec::new();
    v.push("expected_overrides");
    v.push("expected_exclusions");
    v.push("expected_materializations");
    v.push("base_snapshot");
    v.push("recipes");
    assert(strs(v@) =~= reconstruction_keys());
    v
}

/// The keys of `[measures]`.
pub open spec fn measures_keys() -> Seq<Seq<char>> {
    seq!["regions"@, "length"@, "fnv1a64"@]
}

fn measures_keys_list() -> (v: Vec<&'static str>)
    ensures
        strs(v@) == measures_keys(),
{
    let mut v: Vec<&'static str> = Vec::new();
    v.push("regions");
    v.push("length");
    v.push("fnv1a64");
    assert(strs(v@) =~= measures_keys());
    v
}

/// Every key a rule may hold, whatever its operation.
pub open spec fn rule_keys() -> Seq<Seq<char>> {
    seq!["op"@, "key"@, "from"@, "to"@, "from_hash"@, "to_hash"@, "from_summary"@, "to_summary"@, "expect_file"@, "to_file"@, "expect_domain"@, "expect_layer"@, "prefix"@, "file"@, "expected_matches"@, "kind"@, "domain"@, "layer"@, "summary"@, "hash"@, "status"@]
}

fn rule_keys_list() -> (v: Vec<&'static str>)
    ensures
        strs(v@) == rule_keys(),
{
    let mut v: Vec<&'static str> = Vec::new();
    v.push("op");
    v.push("key");
    v.push("from");
    v.push("to");
    v.push("from_hash");
    v.push("to_hash");
    v.push("from_summary");
    v.push("to_summary");
    v.push("expect_file");
    v.push("to_file");
    v.push("expect_domain");
    v.push("expect_layer");
    v.push("prefix");
    v.push("file");
    v.push("expected_matches");
    v.push("kind");
    v.push("domain");
    v.push("layer");
    v.push("summary");
    v.push("hash");
    v.push("status");
    assert(strs(v@) =~= rule_keys());
    v
}

/// The keys allowed for each operation, or `None` for an unknown operation.
pub open spec fn op_keys(op: Seq<char>) -> Option<Seq<Seq<char>>> {
    if op == "override-hash"@ {
        Some(seq!["op"@, "key"@, "from"@, "to"@, "expect_file"@, "expect_domain"@, "expect_layer"@])
    } else if op == "override-region"@ {
        Some(seq!["op"@, "key"@, "from_hash"@, "to_hash"@, "from_summary"@, "to_summary"@, "expect_file"@, "to_file"@, "expect_domain"@, "expect_layer"@])
    } else if op == "exclude-key"@ {
        Some(seq!["op"@, "key"@, "expected_matches"@])
    } else if op == "exclude-key-prefix"@ {
        Some(seq!["op"@, "prefix"@, "expected_matches"@])
    } else if op == "exclude-file"@ {
        Some(seq!["op"@, "file"@, "expected_matches"@])
    } else if op == "exclude-file-prefix"@ {
        Some(seq!["op"@, "prefix"@, "expected_matches"@])
    } else if op == "materialize-region"@ {
        Some(seq!["op"@, "key"@, "kind"@, "domain"@, "layer"@, "file"@, "summary"@, "hash"@, "status"@])
    } else {
        None
    }
}

fn op_key_list(op: &str) -> (r: Option<Vec<&'static str>>)
    ensures
        match op_keys(op@) {
            Some(ks) => r matches Some(v) && strs(v@) == ks,
            None => r is None,
        },
{
    if crate::text::str_eq(op, "override-hash") {
        let mut v: Vec<&'static str> = Vec::new();
        v.push("op");
        v.push("key");
        v.push("from");
        v.push("to");
        v.push("expect_file");
        v.push("expect_domain");
        v.push("expect_layer");
        assert(strs(v@) =~= seq!["op"@, "key"@, "from"@, "to"@, "expect_file"@, "expect_domain"@, "expect_layer"@]);
        Some(v)
    } else if crate::text::str_eq(op, "override-region") {
        let mut v: Vec<&'static str> = Vec::new();
        v.push("op");
        v.push("key");
        v.push("from_hash");
        v.push("to_hash");
        v.push("from_summary");
        v.push("to_summary");
        v.push("expect_file");
        v.push("to_file");
        v.push("expect_domain");
        v.push("expect_layer");
        assert(strs(v@) =~= seq!["op"@, "key"@, "from_hash"@, "to_hash"@, "from_summary"@, "to_summary"@, "expect_file"@, "to_file"@, "expect_domain"@, "expect_layer"@]);
        Some(v)
    } else if crate::text::str_eq(op, "exclude-key") {
        let mut v: Vec<&'static str> = Vec::new();
        v.push("op");
        v.push("key");
        v.push("expected_matches");
        assert(strs(v@) =~= seq!["op"@, "key"@, "expected_matches"@]);
        Some(v)
    } else if crate::text::str_eq(op, "exclude-key-prefix") {
        let mut v: Vec<&'static str> = Vec::new();
        v.push("op");
        v.push("prefix");
        v.push("expected_matches");
        assert(strs(v@) =~= seq!["op"@, "prefix"@, "expected_matches"@]);
        Some(v)
    } else if crate::text::str_eq(op, "exclude-file") {
        let mut v: Vec<&'static str> = Vec::new();
        v.push("op");
        v.push("file");
        v.push("expected_matches");
        assert(strs(v@) =~= seq!["op"@, "file"@, "expected_matches"@]);
        Some(v)
    } else if crate::text::str_eq(op, "exclude-file-prefix") {
        let mut v: Vec<&'static str> = Vec::new();
        v.push("op");
        v.push("prefix");
        v.push("expected_matches");
        assert(strs(v@) =~= seq!["op"@, "prefix"@, "expected_matches"@]);
        Some(v)
    } else if crate::text::str_eq(op, "materialize-region") {
        let mut v: Vec<&'static str> = Vec::new();
        v.push("op");
        v.push("key");
        v.push("kind");
        v.push("domain");
        v.push("layer");
        v.push("file");
        v.push("summary");
        v.push("hash");
        v.push("status");
        assert(strs(v@) =~= seq!["op"@, "key"@, "kind"@, "domain"@, "layer"@, "file"@, "summary"@, "hash"@, "status"@]);
        Some(v)
    } else {
        None
    }
}

pub(crate) fn str_listed(allowed: &Vec<&str>, key: &str) -> (b: bool)
    ensures
        b == strs(allowed@).contains(key@),
{
    let mut i: usize = 0;
    while i < allowed.len()
        invariant
            i <= allowed@.len(),
            forall|j: int| 0 <= j < i ==> strs(allowed@)[j] != key@,
        decreases allowed.len() - i,
    {
        if crate::text::str_eq(allowed[i], key) {
            assert(strs(allowed@)[i as int] == key@);
            return true;
        }
        i = i + 1;
    }
    assert(!strs(allowed@).contains(key@)) by {
        if strs(allowed@).contains(key@) {
            let j = choose|j: int| 0 <= j < strs(allowed@).len() && strs(allowed@)[j] == key@;
            assert(strs(allowed@)[j] != key@);
        }
    }
    false
}

/// Refuses the first key of the table outside the allowed ones.
pub fn reject_unknown(table: &Table, allowed: &Vec<&str>, scope: &str) -> (r: Result<(), HarnessFailure>)
    ensures
        result_unit_view(r) == check_known(table_view(*table), strs(allowed@), scope@),
{
    let ghost tv = table_view(*table);
    let mut i: usize = 0;
    assert(tv.skip(0) =~= tv);
    while i < table.pairs.len()
        invariant
            i <= table.pairs@.len(),
            tv == table_view(*table),
            unknown_key(tv, strs(allowed@)) == unknown_key(tv.skip(i as int), strs(allowed@)),
        decreases table.pairs.len() - i,
    {
        assert(tv.skip(i as int)[0] == tv[i as int]);
        assert(tv.skip(i as int).drop_first() =~= tv.skip(i + 1));
        let key = table.pairs[i].0.as_str();
        if !str_listed(allowed, key) {
            return Err(HarnessFailure::InvalidField { field: joined(scope, key), msg: owned("chave desconhecida") });
        }
        i = i + 1;
    }
    assert(tv.skip(i as int).len() == 0);
    Ok(())
}

/// A text field that must be present.
pub fn require_text(table: &Table, key: &str, scope: &str) -> (r: Result<String, HarnessFailure>)
    ensures
        match req_text(table_view(*table), key@, scope@) {
            Ok(v) => r matches Ok(s) && s@ == v,
            Err(f) => r matches Err(e) && super::failure_view(e) == f,
        },
{
    match table.get(key) {
        Some(Scalar::Text(value)) => Ok(value.clone()),
        Some(_) => Err(
            HarnessFailure::InvalidField { field: joined(scope, key), msg: owned("esperado texto entre aspas") },
        ),
        None => Err(HarnessFailure::MissingField { field: joined(scope, key) }),
    }
}

/// A text field that may be absent.
pub fn optional_text(table: &Table, key: &str, scope: &str) -> (r: Result<Option<String>, HarnessFailure>)
    ensures
        match opt_text(table_view(*table), key@, scope@) {
            Ok(v) => r matches Ok(s) && super::opt_view(s) == v,
            Err(f) => r matches Err(e) && super::failure_view(e) == f,
        },
{
    match table.get(key) {
        Some(Scalar::Text(value)) => Ok(Some(value.clone())),
        Some(_) => Err(
            HarnessFailure::InvalidField { field: joined(scope, key), msg: owned("esperado texto entre aspas") },
        ),
        None => Ok(None),
    }
}

/// An integer field that must be present.
pub fn require_integer(table: &Table, key: &str, scope: &str) -> (r: Result<u64, HarnessFailure>)
    ensures
        match req_integer(table_view(*table), key@, scope@) {
            Ok(v) => r == Ok::<u64, HarnessFailure>(v),
            Err(f) => r matches Err(e) && super::failure_view(e) == f,
        },
{
    match table.get(key) {
        Some(Scalar::Integer(value)) => Ok(*value),
        Some(_) => Err(
            HarnessFailure::InvalidField { field: joined(scope, key), msg: owned("esperado inteiro, não texto") },
        ),
        None => Err(HarnessFailure::MissingField { field: joined(scope, key) }),
    }
}

pub(crate) fn clone_strings(v: &Vec<String>) -> (r: Vec<String>)
    ensures
        r@ == v@,
{
    let mut r: Vec<String> = Vec::new();
    let mut i: usize = 0;
    while i < v.len()
        invariant
            i <= v@.len(),
            r@ == v@.take(i as int),
        decreases v.len() - i,
    {
        r.push(v[i].clone());
        assert(r@ =~= v@.take(i + 1));
        i = i + 1;
    }
    assert(v@.take(v@.len() as int) =~= v@);
    r
}

/// A list field that may be absent (absent is empty).
pub fn optional_list(table: &Table, key: &str, scope: &str) -> (r: Result<Vec<String>, HarnessFailure>)
    ensures
        match opt_list(table_view(*table), key@, scope@) {
            Ok(v) => r matches Ok(s) && string_rows(s@) == v,
            Err(f) => r matches Err(e) && super::failure_view(e) == f,
        },
{
    match table.get(key) {
        Some(Scalar::List(items)) => Ok(clone_strings(items)),
        Some(_) => Err(
            HarnessFailure::InvalidField { field: joined(scope, key), msg: owned("esperado lista de textos") },
        ),
        None => {
            let r: Vec<String> = Vec::new();
            assert(string_rows(r@) =~= Seq::<Seq<char>>::empty());
            Ok(r)
        },
    }
}

/// A text field that must be present and not empty.
pub fn require_nonempty(table: &Table, key: &str, scope: &str) -> (r: Result<String, HarnessFailure>)
    ensures
        match req_nonempty(table_view(*table), key@, scope@) {
            Ok(v) => r matches Ok(s) && s@ == v,
            Err(f) => r matches Err(e) && super::failure_view(e) == f,
        },
{
    let value = require_text(table, key, scope)?;
    if value.as_str().is_empty() {
        return Err(HarnessFailure::InvalidField { field: joined(scope, key), msg: owned("valor vazio") });
    }
    Ok(value)
}

/// Authority and capability of a set of rules under a declared schema.
pub fn validate_rules(schema: u64, rules: &[Rule], authority: SchemaAuthority) -> (r: Result<(), HarnessFailure>)
    ensures
        result_unit_view(r) == rules_check(schema, rules_view(rules@), authority),
{
    if !authority.supports(schema) {
        return Err(HarnessFailure::SchemaUnknown { authority, found: schema });
    }
    let ghost rv = rules_view(rules@);
    let mut i: usize = 0;
    assert(rv.skip(0) =~= rv);
    while i < rules.len()
        invariant
            i <= rules@.len(),
            rv == rules_view(rules@),
            authority_supports(authority, schema),
            rules_check(schema, rv, authority) == rules_admitted(schema, rv.skip(i as int), authority),
        decreases rules.len() - i,
    {
        assert(rv.skip(i as int)[0] == rule_view(rules@[i as int]));
        assert(rv.skip(i as int).drop_first() =~= rv.skip(i + 1));
        let rule = &rules[i];
        if authority == SchemaAuthority::Recipe && rule.is_materialization() {
            return Err(HarnessFailure::OperationOutsideAuthority { authority, op: owned(rule.op()) });
        }
        let required = rule.min_schema(authority);
        if required > schema {
            let mut cap: Vec<char> = Vec::new();
            push_str_chars(&mut cap, "op '");
            push_str_chars(&mut cap, rule.op());
            push_str_chars(&mut cap, "'");
            return Err(
                HarnessFailure::CapabilityRequiresSchema {
                    authority,
                    capability: text_of(&cap),
                    found_schema: schema,
                    required_schema: required,
                },
            );
        }
        i = i + 1;
    }
    assert(rv.skip(i as int).len() == 0);
    Ok(())
}

/// The scope of the fields of rule `index`: `rules[<index>].`.
pub open spec fn rule_scope(index: usize) -> Seq<char> {
    "rules["@ + decimal(index as nat) + "]."@
}

/// The non-empty selector of a rule, or the failure of its absence.
pub open spec fn selector_field(
    t: Seq<(Seq<char>, ScalarView)>,
    name: Seq<char>,
    scope: Seq<char>,
    index: usize,
    op: Seq<char>,
) -> Result<Seq<char>, FailureView> {
    match opt_text(t, name, scope) {
        Err(e) => Err(e),
        Ok(Some(k)) => if k.len() > 0 {
            Ok(k)
        } else {
            Err(FailureView::RuleWithoutSelector { index, op })
        },
        Ok(None) => Err(FailureView::RuleWithoutSelector { index, op }),
    }
}

/// The consumption budget of an exclusion: at least one match.
pub open spec fn budget_field(t: Seq<(Seq<char>, ScalarView)>, scope: Seq<char>) -> Result<u64, FailureView> {
    match req_integer(t, "expected_matches"@, scope) {
        Err(e) => Err(e),
        Ok(n) => if n == 0 {
            Err(
                FailureView::InvalidField {
                    field: scope + "expected_matches"@,
                    msg: "exclusão precisa consumir ao menos uma correspondência"@,
                },
            )
        } else {
            Ok(n)
        },
    }
}

pub open spec fn check_opt_path(v: Option<Seq<char>>, field: Seq<char>) -> Result<(), FailureView> {
    match v {
        Some(f) => check_path(f, field),
        None => Ok(()),
    }
}

pub open spec fn check_opt_hash(v: Option<Seq<char>>, field: Seq<char>) -> Result<(), FailureView> {
    match v {
        Some(h) => match check_hash(h, field) {
            Ok(_) => Ok(()),
            Err(e) => Err(e),
        },
        None => Ok(()),
    }
}

pub open spec fn override_hash_rule(
    t: Seq<(Seq<char>, ScalarView)>,
    index: usize,
    scope: Seq<char>,
    op: Seq<char>,
) -> Result<RuleView, FailureView> {
    let key = selector_field(t, "key"@, scope, index, op);
    let from = req_text(t, "from"@, scope);
    let from_ok = check_hash(from->Ok_0, scope + "from"@);
    let to = req_text(t, "to"@, scope);
    let to_ok = check_hash(to->Ok_0, scope + "to"@);
    let expect_file = opt_text(t, "expect_file"@, scope);
    let file_ok = check_opt_path(expect_file->Ok_0, scope + "expect_file"@);
    let expect_domain = opt_text(t, "expect_domain"@, scope);
    let expect_layer = opt_text(t, "expect_layer"@, scope);
    if key is Err {
        Err(key->Err_0)
    } else if from is Err {
        Err(from->Err_0)
    } else if from_ok is Err {
        Err(from_ok->Err_0)
    } else if to is Err {
        Err(to->Err_0)
    } else if to_ok is Err {
        Err(to_ok->Err_0)
    } else if expect_file is Err {
        Err(expect_file->Err_0)
    } else if file_ok is Err {
        Err(file_ok->Err_0)
    } else if expect_domain is Err {
        Err(expect_domain->Err_0)
    } else if expect_layer is Err {
        Err(expect_layer->Err_0)
    } else {
        Ok(
            RuleView::OverrideHash {
                key: key->Ok_0,
                from: from->Ok_0,
                to: to->Ok_0,
                expect_file: expect_file->Ok_0,
                expect_domain: expect_domain->Ok_0,
                expect_layer: expect_layer->Ok_0,
            },
        )
    }
}

pub open spec fn pair_msg(key: Seq<char>, msg: Seq<char>) -> FailureView {
    FailureView::OverrideRegionPairInvalid { key, msg }
}

pub open spec fn override_region_rule(
    t: Seq<(Seq<char>, ScalarView)>,
    index: usize,
    scope: Seq<char>,
    op: Seq<char>,
) -> Result<RuleView, FailureView> {
    let key = selector_field(t, "key"@, scope, index, op);
    let from_hash = opt_text(t, "from_hash"@, scope);
    let to_hash = opt_text(t, "to_hash"@, scope);
    let from_summary = opt_text(t, "from_summary"@, scope);
    let to_summary = opt_text(t, "to_summary"@, scope);
    let expect_file = opt_text(t, "expect_file"@, scope);
    let to_file = opt_text(t, "to_file"@, scope);
    let k = key->Ok_0;
    let fh = from_hash->Ok_0;
    let th = to_hash->Ok_0;
    let fs = from_summary->Ok_0;
    let ts = to_summary->Ok_0;
    let ef = expect_file->Ok_0;
    let tf = to_file->Ok_0;
    let fh_ok = check_opt_hash(fh, scope + "from_hash"@);
    let th_ok = check_opt_hash(th, scope + "to_hash"@);
    let ef_ok = check_opt_path(ef, scope + "expect_file"@);
    let tf_ok = check_opt_path(tf, scope + "to_file"@);
    let expect_domain = opt_text(t, "expect_domain"@, scope);
    let expect_layer = opt_text(t, "expect_layer"@, scope);
    if key is Err {
        Err(key->Err_0)
    } else if from_hash is Err {
        Err(from_hash->Err_0)
    } else if to_hash is Err {
        Err(to_hash->Err_0)
    } else if from_summary is Err {
        Err(from_summary->Err_0)
    } else if to_summary is Err {
        Err(to_summary->Err_0)
    } else if (fh is Some) != (th is Some) {
        Err(pair_msg(k, "'from_hash' e 'to_hash' precisam vir juntos"@))
    } else if (fs is Some) != (ts is Some) {
        Err(pair_msg(k, "'from_summary' e 'to_summary' precisam vir juntos"@))
    } else if expect_file is Err {
        Err(expect_file->Err_0)
    } else if to_file is Err {
        Err(to_file->Err_0)
    } else if tf is Some && ef is None {
        Err(pair_msg(k, "'to_file' exige 'expect_file' como origem declarada"@))
    } else if fh is None && fs is None && tf is None {
        Err(pair_msg(k, "ao menos um par completo é obrigatório"@))
    } else if fh_ok is Err {
        Err(fh_ok->Err_0)
    } else if th_ok is Err {
        Err(th_ok->Err_0)
    } else if ef_ok is Err {
        Err(ef_ok->Err_0)
    } else if tf_ok is Err {
        Err(tf_ok->Err_0)
    } else if expect_domain is Err {
        Err(expect_domain->Err_0)
    } else if expect_layer is Err {
        Err(expect_layer->Err_0)
    } else {
        Ok(
            RuleView::OverrideRegion {
                key: k,
                from_hash: fh,
                to_hash: th,
                from_summary: fs,
                to_summary: ts,
                expect_file: ef,
                to_file: tf,
                expect_domain: expect_domain->Ok_0,
                expect_layer: expect_layer->Ok_0,
            },
        )
    }
}

pub open spec fn materialize_rule(
    t: Seq<(Seq<char>, ScalarView)>,
    index: usize,
    scope: Seq<char>,
    op: Seq<char>,
) -> Result<RuleView, FailureView> {
    let key = selector_field(t, "key"@, scope, index, op);
    let kind = req_nonempty(t, "kind"@, scope);
    let file = req_nonempty(t, "file"@, scope);
    let file_ok = check_path(file->Ok_0, scope + "file"@);
    let summary = req_text(t, "summary"@, scope);
    let hash = req_text(t, "hash"@, scope);
    let hash_ok = check_hash(hash->Ok_0, scope + "hash"@);
    let status = req_nonempty(t, "status"@, scope);
    let domain = opt_text(t, "domain"@, scope);
    let layer = opt_text(t, "layer"@, scope);
    if key is Err {
        Err(key->Err_0)
    } else if kind is Err {
        Err(kind->Err_0)
    } else if file is Err {
        Err(file->Err_0)
    } else if file_ok is Err {
        Err(file_ok->Err_0)
    } else if summary is Err {
        Err(summary->Err_0)
    } else if hash is Err {
        Err(hash->Err_0)
    } else if hash_ok is Err {
        Err(hash_ok->Err_0)
    } else if status is Err {
        Err(status->Err_0)
    } else if domain is Err {
        Err(domain->Err_0)
    } else if layer is Err {
        Err(layer->Err_0)
    } else {
        Ok(
            RuleView::MaterializeRegion {
                key: key->Ok_0,
                kind: kind->Ok_0,
                domain: domain->Ok_0,
                layer: layer->Ok_0,
                file: file->Ok_0,
                summary: summary->Ok_0,
                hash: hash->Ok_0,
                status: status->Ok_0,
            },
        )
    }
}

/// An exclusion: its selector (`name`, checked as a path when `is_path`) and
/// its budget.
pub open spec fn exclusion_parts(
    t: Seq<(Seq<char>, ScalarView)>,
    index: usize,
    scope: Seq<char>,
    op: Seq<char>,
    name: Seq<char>,
    is_path: bool,
) -> Result<(Seq<char>, u64), FailureView> {
    let sel = selector_field(t, name, scope, index, op);
    let path_ok = if is_path {
        check_path(sel->Ok_0, scope + name)
    } else {
        Ok(())
    };
    let budget = budget_field(t, scope);
    if sel is Err {
        Err(sel->Err_0)
    } else if path_ok is Err {
        Err(path_ok->Err_0)
    } else if budget is Err {
        Err(budget->Err_0)
    } else {
        Ok((sel->Ok_0, budget->Ok_0))
    }
}

/// The fields of a rule whose operation and keys were accepted.
pub open spec fn rule_fields(
    t: Seq<(Seq<char>, ScalarView)>,
    index: usize,
    scope: Seq<char>,
    op: Seq<char>,
) -> Result<RuleView, FailureView> {
    if op == "override-hash"@ {
        override_hash_rule(t, index, scope, op)
    } else if op == "exclude-key"@ {
        match exclusion_parts(t, index, scope, op, "key"@, false) {
            Ok((k, n)) => Ok(RuleView::ExcludeKey { key: k, expected_matches: n }),
            Err(e) => Err(e),
        }
    } else if op == "exclude-file-prefix"@ {
        match exclusion_parts(t, index, scope, op, "prefix"@, true) {
            Ok((k, n)) => Ok(RuleView::ExcludeFilePrefix { prefix: k, expected_matches: n }),
            Err(e) => Err(e),
        }
    } else if op == "override-region"@ {
        override_region_rule(t, index, scope, op)
    } else if op == "exclude-file"@ {
        match exclusion_parts(t, index, scope, op, "file"@, true) {
            Ok((k, n)) => Ok(RuleView::ExcludeFile { file: k, expected_matches: n }),
            Err(e) => Err(e),
        }
    } else if op == "materialize-region"@ {
        materialize_rule(t, index, scope, op)
    } else if op == "exclude-key-prefix"@ {
        match exclusion_parts(t, index, scope, op, "prefix"@, false) {
            Ok((k, n)) => Ok(RuleView::ExcludeKeyPrefix { prefix: k, expected_matches: n }),
            Err(e) => Err(e),
        }
    } else {
        Err(FailureView::RuleOperationUnknown { index, op })
    }
}

/// The rule a `[[rules]]` table declares, or the first failure.
pub open spec fn rule_of(t: Seq<(Seq<char>, ScalarView)>, index: usize) -> Result<RuleView, FailureView> {
    let scope = rule_scope(index);
    match check_known(t, rule_keys(), scope) {
        Err(e) => Err(e),
        Ok(()) => match table_get(t, "op"@) {
            None => Err(FailureView::RuleWithoutOperation { index }),
            Some(ScalarView::Text(op)) => match op_keys(op) {
                None => Err(FailureView::RuleOperationUnknown { index, op }),
                Some(allowed) => match unknown_key(t, allowed) {
                    Some(k) => Err(FailureView::FieldNotAllowedForOp { op, field: k }),
                    None => rule_fields(t, index, scope, op),
                },
            },
            Some(_) => Err(FailureView::InvalidField { field: scope + "op"@, msg: text_expected() }),
        },
    }
}

fn rule_scope_text(index: usize) -> (s: String)
    ensures
        s@ == rule_scope(index),
{
    let mut v: Vec<char> = Vec::new();
    push_str_chars(&mut v, "rules[");
    push_decimal(&mut v, index as u64);
    push_str_chars(&mut v, "].");
    string_from(&v)
}

fn selector_exec(table: &Table, name: &str, scope: &str, index: usize, op: &str) -> (r: Result<String, HarnessFailure>)
    ensures
        match selector_field(table_view(*table), name@, scope@, index, op@) {
            Ok(v) => r matches Ok(s) && s@ == v,
            Err(f) => r matches Err(e) && super::failure_view(e) == f,
        },
{
    match optional_text(table, name, scope)? {
        Some(k) => if k.as_str().is_empty() {
            Err(HarnessFailure::RuleWithoutSelector { index, op: owned(op) })
        } else {
            Ok(k)
        },
        None => Err(HarnessFailure::RuleWithoutSelector { index, op: owned(op) }),
    }
}

fn budget_exec(table: &Table, scope: &str) -> (r: Result<u64, HarnessFailure>)
    ensures
        match budget_field(table_view(*table), scope@) {
            Ok(v) => r == Ok::<u64, HarnessFailure>(v),
            Err(f) => r matches Err(e) && super::failure_view(e) == f,
        },
{
    let n = require_integer(table, "expected_matches", scope)?;
    if n == 0 {
        return Err(
            HarnessFailure::InvalidField {
                field: joined(scope, "expected_matches"),
                msg: owned("exclusão precisa consumir ao menos uma correspondência"),
            },
        );
    }
    Ok(n)
}

fn opt_path_exec(v: &Option<String>, field: &str) -> (r: Result<(), HarnessFailure>)
    ensures
        result_unit_view(r) == check_opt_path(super::opt_view(*v), field@),
{
    match v {
        Some(f) => validate_relative_path(f.as_str(), field),
        None => Ok(()),
    }
}

fn opt_hash_exec(v: &Option<String>, field: &str) -> (r: Result<(), HarnessFailure>)
    ensures
        result_unit_view(r) == check_opt_hash(super::opt_view(*v), field@),
{
    match v {
        Some(h) => {
            validate_hash(h.as_str(), field)?;
            Ok(())
        },
        None => Ok(()),
    }
}

fn pair_failure(key: &String, msg: &str) -> (f: HarnessFailure)
    ensures
        super::failure_view(f) == pair_msg(key@, msg@),
{
    HarnessFailure::OverrideRegionPairInvalid { key: key.clone(), msg: owned(msg) }
}

fn exclusion_exec(table: &Table, index: usize, scope: &str, op: &str, name: &str, is_path: bool) -> (r: Result<(String, u64), HarnessFailure>)
    ensures
        match exclusion_parts(table_view(*table), index, scope@, op@, name@, is_path) {
            Ok((k, n)) => r matches Ok((s, m)) && s@ == k && m == n,
            Err(f) => r matches Err(e) && super::failure_view(e) == f,
        },
{
    let sel = selector_exec(table, name, scope, index, op)?;
    if is_path {
        validate_relative_path(sel.as_str(), joined(scope, name).as_str())?;
    }
    let n = budget_exec(table, scope)?;
    Ok((sel, n))
}

fn override_hash_exec(table: &Table, index: usize, scope: &str, op: &str) -> (r: Result<Rule, HarnessFailure>)
    ensures
        match override_hash_rule(table_view(*table), index, scope@, op@) {
            Ok(v) => r matches Ok(x) && rule_view(x) == v,
            Err(f) => r matches Err(e) && super::failure_view(e) == f,
        },
{
    let key = selector_exec(table, "key", scope, index, op)?;
    let from = require_text(table, "from", scope)?;
    validate_hash(from.as_str(), joined(scope, "from").as_str())?;
    let to = require_text(table, "to", scope)?;
    validate_hash(to.as_str(), joined(scope, "to").as_str())?;
    let expect_file = optional_text(table, "expect_file", scope)?;
    opt_path_exec(&expect_file, joined(scope, "expect_file").as_str())?;
    let expect_domain = optional_text(table, "expect_domain", scope)?;
    let expect_layer = optional_text(table, "expect_layer", scope)?;
    Ok(Rule::OverrideHash { key, from, to, expect_file, expect_domain, expect_layer })
}

fn override_region_exec(table: &Table, index: usize, scope: &str, op: &str) -> (r: Result<Rule, HarnessFailure>)
    ensures
        match override_region_rule(table_view(*table), index, scope@, op@) {
            Ok(v) => r matches Ok(x) && rule_view(x) == v,
            Err(f) => r matches Err(e) && super::failure_view(e) == f,
        },
{
    let key = selector_exec(table, "key", scope, index, op)?;
    let from_hash = optional_text(table, "from_hash", scope)?;
    let to_hash = optional_text(table, "to_hash", scope)?;
    let from_summary = optional_text(table, "from_summary", scope)?;
    let to_summary = optional_text(table, "to_summary", scope)?;
    if from_hash.is_some() != to_hash.is_some() {
        return Err(pair_failure(&key, "'from_hash' e 'to_hash' precisam vir juntos"));
    }
    if from_summary.is_some() != to_summary.is_some() {
        return Err(pair_failure(&key, "'from_summary' e 'to_summary' precisam vir juntos"));
    }
    let expect_file = optional_text(table, "expect_file", scope)?;
    let to_file = optional_text(table, "to_file", scope)?;
    if to_file.is_some() && expect_file.is_none() {
        return Err(pair_failure(&key, "'to_file' exige 'expect_file' como origem declarada"));
    }
    if from_hash.is_none() && from_summary.is_none() && to_file.is_none() {
        return Err(pair_failure(&key, "ao menos um par completo é obrigatório"));
    }
    opt_hash_exec(&from_hash, joined(scope, "from_hash").as_str())?;
    opt_hash_exec(&to_hash, joined(scope, "to_hash").as_str())?;
    opt_path_exec(&expect_file, joined(scope, "expect_file").as_str())?;
    opt_path_exec(&to_file, joined(scope, "to_file").as_str())?;
    let expect_domain = optional_text(table, "expect_domain", scope)?;
    let expect_layer = optional_text(table, "expect_layer", scope)?;
    Ok(
        Rule::OverrideRegion {
            key,
            from_hash,
            to_hash,
            from_summary,
            to_summary,
            expect_file,
            to_file,
            expect_domain,
            expect_layer,
        },
    )
}

fn materialize_exec(table: &Table, index: usize, scope: &str, op: &str) -> (r: Result<Rule, HarnessFailure>)
    ensures
        match materialize_rule(table_view(*table), index, scope@, op@) {
            Ok(v) => r matches Ok(x) && rule_view(x) == v,
            Err(f) => r matches Err(e) && super::failure_view(e) == f,
        },
{
    let key = selector_exec(table, "key", scope, index, op)?;
    let kind = require_nonempty(table, "kind", scope)?;
    let file = require_nonempty(table, "file", scope)?;
    validate_relative_path(file.as_str(), joined(scope, "file").as_str())?;
    let summary = require_text(table, "summary", scope)?;
    let hash = require_text(table, "hash", scope)?;
    validate_hash(hash.as_str(), joined(scope, "hash").as_str())?;
    let status = require_nonempty(table, "status", scope)?;
    let domain = optional_text(table, "domain", scope)?;
    let layer = optional_text(table, "layer", scope)?;
    Ok(Rule::MaterializeRegion { key, kind, domain, layer, file, summary, hash, status })
}

fn unknown_for_op(table: &Table, allowed: &Vec<&str>) -> (r: Option<String>)
    ensures
        match unknown_key(table_view(*table), strs(allowed@)) {
            Some(k) => r matches Some(s) && s@ == k,
            None => r is None,
        },
{
    let ghost tv = table_view(*table);
    let mut i: usize = 0;
    assert(tv.skip(0) =~= tv);
    while i < table.pairs.len()
        invariant
            i <= table.pairs@.len(),
            tv == table_view(*table),
            unknown_key(tv, strs(allowed@)) == unknown_key(tv.skip(i as int), strs(allowed@)),
        decreases table.pairs.len() - i,
    {
        assert(tv.skip(i as int)[0] == tv[i as int]);
        assert(tv.skip(i as int).drop_first() =~= tv.skip(i + 1));
        let key = table.pairs[i].0.as_str();
        if !str_listed(allowed, key) {
            return Some(owned(key));
        }
        i = i + 1;
    }
    assert(tv.skip(i as int).len() == 0);
    None
}

/// The rule a `[[rules]]` table declares.
pub fn build_rule(table: &Table, index: usize) -> (r: Result<Rule, HarnessFailure>)
    ensures
        match rule_of(table_view(*table), index) {
            Ok(v) => r matches Ok(x) && rule_view(x) == v,
            Err(f) => r matches Err(e) && super::failure_view(e) == f,
        },
{
    let scope_s = rule_scope_text(index);
    let scope = scope_s.as_str();
    reject_unknown(table, &rule_keys_list(), scope)?;
    let op = match table.get("op") {
        Some(Scalar::Text(value)) => value.clone(),
        Some(_) => {
            return Err(
                HarnessFailure::InvalidField { field: joined(scope, "op"), msg: owned("esperado texto entre aspas") },
            );
        },
        None => {
            return Err(HarnessFailure::RuleWithoutOperation { index });
        },
    };
    let allowed = match op_key_list(op.as_str()) {
        Some(v) => v,
        None => {
            return Err(HarnessFailure::RuleOperationUnknown { index, op });
        },
    };
    match unknown_for_op(table, &allowed) {
        Some(field) => {
            return Err(HarnessFailure::FieldNotAllowedForOp { op, field });
        },
        None => {},
    }
    let o = op.as_str();
    if crate::text::str_eq(o, "override-hash") {
        override_hash_exec(table, index, scope, o)
    } else if crate::text::str_eq(o, "exclude-key") {
        let (key, expected_matches) = exclusion_exec(table, index, scope, o, "key", false)?;
        Ok(Rule::ExcludeKey { key, expected_matches })
    } else if crate::text::str_eq(o, "exclude-file-prefix") {
        let (prefix, expected_matches) = exclusion_exec(table, index, scope, o, "prefix", true)?;
        Ok(Rule::ExcludeFilePrefix { prefix, expected_matches })
    } else if crate::text::str_eq(o, "override-region") {
        override_region_exec(table, index, scope, o)
    } else if crate::text::str_eq(o, "exclude-file") {
        let (file, expected_matches) = exclusion_exec(table, index, scope, o, "file", true)?;
        Ok(Rule::ExcludeFile { file, expected_matches })
    } else if crate::text::str_eq(o, "materialize-region") {
        materialize_exec(table, index, scope, o)
    } else if crate::text::str_eq(o, "exclude-key-prefix") {
        let (prefix, expected_matches) = exclusion_exec(table, index, scope, o, "prefix", false)?;
        Ok(Rule::ExcludeKeyPrefix { prefix, expected_matches })
    } else {
        Err(HarnessFailure::RuleOperationUnknown { index, op: owned(o) })
    }
}

/// The root fields of a snapshot.
pub struct HeaderView {
    pub schema: u64,
    pub id: Seq<char>,
    pub state: SnapshotState,
    pub predecessor: Option<Seq<char>>,
    pub justification: Option<Seq<char>>,
}

pub open spec fn check_opt_id(v: Option<Seq<char>>, field: Seq<char>) -> Result<(), FailureView> {
    match v {
        Some(p) => check_id(p, field),
        None => Ok(()),
    }
}

/// The root table of a snapshot, validated.
pub open spec fn header_of(root: Seq<(Seq<char>, ScalarView)>) -> Result<HeaderView, FailureView> {
    let known = check_known(root, root_keys(), Seq::empty());
    let schema_r: Result<u64, FailureView> = match table_get(root, "schema"@) {
        Some(ScalarView::Integer(v)) => Ok(v),
        Some(_) => Err(FailureView::InvalidField { field: "schema"@, msg: "esperado inteiro, não texto"@ }),
        None => Err(FailureView::SchemaUnknown { authority: SchemaAuthority::Snapshot, found: 0 }),
    };
    let schema = schema_r->Ok_0;
    let id = req_text(root, "id"@, Seq::empty());
    let id_ok = check_id(id->Ok_0, "id"@);
    let state_text = req_text(root, "state"@, Seq::empty());
    let st = state_text->Ok_0;
    let state = if st == "FROZEN"@ {
        SnapshotState::Frozen
    } else {
        SnapshotState::Candidate
    };
    let predecessor = opt_text(root, "predecessor"@, Seq::empty());
    let pred = predecessor->Ok_0;
    let pred_ok = check_opt_id(pred, "predecessor"@);
    let justification = opt_text(root, "justification"@, Seq::empty());
    let just = justification->Ok_0;
    if known is Err {
        Err(known->Err_0)
    } else if schema_r is Err {
        Err(schema_r->Err_0)
    } else if !(1 <= schema <= 5) {
        Err(FailureView::SchemaUnknown { authority: SchemaAuthority::Snapshot, found: schema })
    } else if id is Err {
        Err(id->Err_0)
    } else if id_ok is Err {
        Err(id_ok->Err_0)
    } else if state_text is Err {
        Err(state_text->Err_0)
    } else if st != "FROZEN"@ && st != "CANDIDATE"@ {
        Err(FailureView::StateUnknown { value: st })
    } else if predecessor is Err {
        Err(predecessor->Err_0)
    } else if pred_ok is Err {
        Err(pred_ok->Err_0)
    } else if pred == Some(id->Ok_0) {
        Err(FailureView::PredecessorSelfReference { id: id->Ok_0 })
    } else if justification is Err {
        Err(justification->Err_0)
    } else if just matches Some(j) && trim(j).len() == 0 {
        Err(FailureView::InvalidField { field: "justification"@, msg: "justificativa vazia"@ })
    } else if just is None && (state == SnapshotState::Candidate || pred is Some) {
        Err(FailureView::MissingField { field: "justification"@ })
    } else {
        Ok(HeaderView { schema, id: id->Ok_0, state, predecessor: pred, justification: just })
    }
}

/// The `[measures]` table, validated.
pub open spec fn measures_of(m: Option<Seq<(Seq<char>, ScalarView)>>) -> Result<Measures, FailureView> {
    let t = m->0;
    let known = check_known(t, measures_keys(), "measures."@);
    let regions = req_integer(t, "regions"@, "measures."@);
    let length = req_integer(t, "length"@, "measures."@);
    let hash_text = req_text(t, "fnv1a64"@, "measures."@);
    let hash = check_hash(hash_text->Ok_0, "measures.fnv1a64"@);
    if m is None {
        Err(FailureView::MissingField { field: "measures"@ })
    } else if known is Err {
        Err(known->Err_0)
    } else if regions is Err {
        Err(regions->Err_0)
    } else if length is Err {
        Err(length->Err_0)
    } else if hash_text is Err {
        Err(hash_text->Err_0)
    } else if hash is Err {
        Err(hash->Err_0)
    } else {
        Ok(Measures { regions: regions->Ok_0, length: length->Ok_0, fnv1a64: hash->Ok_0 })
    }
}

/// The `[reconstruction]` table's fields.
pub struct ReconView {
    pub expected_overrides: u64,
    pub expected_exclusions: u64,
    pub expected_materializations: u64,
    pub base_snapshot: Option<Seq<char>>,
    pub recipes: Seq<Seq<char>>,
}

pub open spec fn capability(cap: Seq<char>, schema: u64, required: u64) -> FailureView {
    FailureView::CapabilityRequiresSchema {
        authority: SchemaAuthority::Snapshot,
        capability: cap,
        found_schema: schema,
        required_schema: required,
    }
}

/// The recipes from position `pos` on: safe identifiers, each declared once.
pub open spec fn recipes_checked(rs: Seq<Seq<char>>, pos: int) -> Result<(), FailureView>
    decreases rs.len() - pos,
{
    if pos < 0 || pos >= rs.len() {
        Ok(())
    } else {
        let field = "reconstruction.recipes["@ + decimal(pos as nat) + "]"@;
        if !id_safe(rs[pos]) {
            Err(FailureView::IdUnsafe { field, value: rs[pos] })
        } else if rs.take(pos).contains(rs[pos]) {
            Err(
                FailureView::InvalidField {
                    field,
                    msg: "receita '"@ + rs[pos] + "' declarada duas vezes no mesmo escopo"@,
                },
            )
        } else {
            recipes_checked(rs, pos + 1)
        }
    }
}

/// The `[reconstruction]` table, validated against the schema and the id.
pub open spec fn recon_of(r: Option<Seq<(Seq<char>, ScalarView)>>, schema: u64, id: Seq<char>) -> Result<
    ReconView,
    FailureView,
> {
    let t = r->0;
    let scope = "reconstruction."@;
    let known = check_known(t, reconstruction_keys(), scope);
    let eo = req_integer(t, "expected_overrides"@, scope);
    let ee = req_integer(t, "expected_exclusions"@, scope);
    let em: Result<u64, FailureView> = match table_get(t, "expected_materializations"@) {
        None => Ok(0),
        Some(_) => if schema < 4 {
            Err(capability("reconstruction.expected_materializations"@, schema, 4))
        } else {
            req_integer(t, "expected_materializations"@, scope)
        },
    };
    let base = opt_text(t, "base_snapshot"@, scope);
    let recipes = opt_list(t, "recipes"@, scope);
    let b = base->Ok_0;
    let rs = recipes->Ok_0;
    let base_ok = check_opt_id(b, "reconstruction.base_snapshot"@);
    if r is None {
        Err(FailureView::MissingField { field: "reconstruction"@ })
    } else if known is Err {
        Err(known->Err_0)
    } else if eo is Err {
        Err(eo->Err_0)
    } else if ee is Err {
        Err(ee->Err_0)
    } else if em is Err {
        Err(em->Err_0)
    } else if base is Err {
        Err(base->Err_0)
    } else if recipes is Err {
        Err(recipes->Err_0)
    } else if schema < 2 && b is Some {
        Err(capability("reconstruction.base_snapshot"@, schema, 2))
    } else if schema < 2 && rs.len() > 0 {
        Err(capability("reconstruction.recipes"@, schema, 2))
    } else if base_ok is Err {
        Err(base_ok->Err_0)
    } else if b == Some(id) {
        Err(FailureView::SelfBase { id })
    } else if recipes_checked(rs, 0) is Err {
        Err(recipes_checked(rs, 0)->Err_0)
    } else {
        Ok(
            ReconView {
                expected_overrides: eo->Ok_0,
                expected_exclusions: ee->Ok_0,
                expected_materializations: em->Ok_0,
                base_snapshot: b,
                recipes: rs,
            },
        )
    }
}

/// The rules of the tables from `i` on, or the first failure.
pub open spec fn rules_built(ts: Seq<Seq<(Seq<char>, ScalarView)>>, i: int) -> Result<Seq<RuleView>, FailureView>
    decreases ts.len() - i,
{
    if i < 0 || i >= ts.len() {
        Ok(Seq::empty())
    } else {
        match rule_of(ts[i], i as usize) {
            Err(e) => Err(e),
            Ok(r) => match rules_built(ts, i + 1) {
                Ok(rest) => Ok(seq![r] + rest),
                Err(e) => Err(e),
            },
        }
    }
}

pub open spec fn count_overrides(rs: Seq<RuleView>) -> nat
    decreases rs.len(),
{
    if rs.len() == 0 {
        0
    } else {
        count_overrides(rs.drop_last()) + if rule_is_override(rs.last()) {
            1nat
        } else {
            0nat
        }
    }
}

pub open spec fn count_materializations(rs: Seq<RuleView>) -> nat
    decreases rs.len(),
{
    if rs.len() == 0 {
        0
    } else {
        count_materializations(rs.drop_last()) + if rs.last() is MaterializeRegion {
            1nat
        } else {
            0nat
        }
    }
}

/// The declared budgets against the rules found.
pub open spec fn budgets_check(rc: ReconView, rs: Seq<RuleView>) -> Result<(), FailureView> {
    let fo = count_overrides(rs) as u64;
    let fm = count_materializations(rs) as u64;
    let fe = (rs.len() - fo - fm) as u64;
    let eo = rc.expected_overrides;
    let ee = rc.expected_exclusions;
    let em = rc.expected_materializations;
    if eo > fo {
        Err(FailureView::OverrideMissing { declared: eo, found: fo })
    } else if eo < fo {
        Err(FailureView::OverrideExcess { declared: eo, found: fo })
    } else if ee > fe {
        Err(FailureView::ExclusionMissing { declared: ee, found: fe })
    } else if ee < fe {
        Err(FailureView::ExclusionExcess { declared: ee, found: fe })
    } else if em > fm {
        Err(FailureView::MaterializationMissing { declared: em, found: fm })
    } else if em < fm {
        Err(FailureView::MaterializationExcess { declared: em, found: fm })
    } else {
        Ok(())
    }
}

/// The failure two rules with the same selector make, if any.
pub open spec fn pair_conflict(a: RuleView, b: RuleView) -> Option<FailureView> {
    if rule_selector(a) != rule_selector(b) {
        None
    } else if rule_is_override(a) && rule_is_override(b) {
        Some(FailureView::OverrideRepeated { key: rule_selector(a) })
    } else if a is MaterializeRegion && b is MaterializeRegion {
        Some(FailureView::MaterializationRepeated { key: rule_selector(a) })
    } else if super::rule_is_exclusion(a) && super::rule_is_exclusion(b) && rule_op(a) == rule_op(b) {
        Some(FailureView::ExclusionRepeated { selector: rule_selector(a) })
    } else {
        None
    }
}

/// The first conflicting pair `(p, q)`, `p < q`, in lexicographic order from
/// `(p, q)` on.
pub open spec fn conflict_from(rs: Seq<RuleView>, p: int, q: int) -> Option<FailureView>
    decreases rs.len() - p, rs.len() - q,
{
    if p < 0 || p >= rs.len() {
        None
    } else if q >= rs.len() || q <= p {
        conflict_from(rs, p + 1, p + 2)
    } else {
        match pair_conflict(rs[p], rs[q]) {
            Some(f) => Some(f),
            None => conflict_from(rs, p, q + 1),
        }
    }
}

/// `a` comes strictly after `b` in the canonical order of rules.
pub open spec fn rule_after(a: RuleView, b: RuleView) -> bool {
    rule_rank(a) > rule_rank(b) || (rule_rank(a) == rule_rank(b) && seq_lt(rule_selector(b), rule_selector(a)))
}

/// Inserts a rule into a canonically ordered list, after every rule that
/// does not come strictly after it.
pub open spec fn insert_rule(s: Seq<RuleView>, x: RuleView) -> Seq<RuleView>
    decreases s.len(),
{
    if s.len() == 0 {
        seq![x]
    } else if rule_after(s.last(), x) {
        insert_rule(s.drop_last(), x).push(s.last())
    } else {
        s.push(x)
    }
}

/// The rules in canonical order: by operation rank, then selector; rules
/// with equal keys keep their relative order.
pub open spec fn sorted_rules(s: Seq<RuleView>) -> Seq<RuleView>
    decreases s.len(),
{
    if s.len() == 0 {
        s
    } else {
        insert_rule(sorted_rules(s.drop_last()), s.last())
    }
}

/// The snapshot a raw document describes, or the first failure.
pub open spec fn snapshot_of(d: DocView) -> Result<SnapshotView, FailureView> {
    let header = header_of(d.root);
    let h = header->Ok_0;
    let measures = measures_of(d.measures);
    let recon = recon_of(d.reconstruction, h.schema, h.id);
    let rules = rules_built(d.rules, 0);
    let rs = rules->Ok_0;
    let admitted = rules_check(h.schema, rs, SchemaAuthority::Snapshot);
    let budgets = budgets_check(recon->Ok_0, rs);
    if header is Err {
        Err(header->Err_0)
    } else if measures is Err {
        Err(measures->Err_0)
    } else if recon is Err {
        Err(recon->Err_0)
    } else if rules is Err {
        Err(rules->Err_0)
    } else if admitted is Err {
        Err(admitted->Err_0)
    } else if budgets is Err {
        Err(budgets->Err_0)
    } else if conflict_from(rs, 0, 1) is Some {
        Err(conflict_from(rs, 0, 1)->0)
    } else {
        let rc = recon->Ok_0;
        Ok(
            SnapshotView {
                schema: h.schema,
                id: h.id,
                state: h.state,
                predecessor: h.predecessor,
                justification: h.justification,
                measures: measures->Ok_0,
                expected_overrides: rc.expected_overrides,
                expected_exclusions: rc.expected_exclusions,
                expected_materializations: rc.expected_materializations,
                base_snapshot: rc.base_snapshot,
                recipes: rc.recipes,
                rules: sorted_rules(rs),
            },
        )
    }
}

/// What a snapshot text holds, or the failure of the first check it breaks.
pub open spec fn parse_spec(text: Seq<char>) -> Result<SnapshotView, FailureView> {
    match raw_document(text) {
        Err((line, msg)) => Err(FailureView::Toml(line as usize, msg)),
        Ok(d) => snapshot_of(d),
    }
}

fn opt_id_exec(v: &Option<String>, field: &str) -> (r: Result<(), HarnessFailure>)
    ensures
        result_unit_view(r) == check_opt_id(super::opt_view(*v), field@),
{
    match v {
        Some(p) => validate_id(p.as_str(), field),
        None => Ok(()),
    }
}

fn header_exec(root: &Table) -> (r: Result<(u64, String, SnapshotState, Option<String>, Option<String>), HarnessFailure>)
    ensures
        match header_of(table_view(*root)) {
            Ok(h) => r matches Ok((schema, id, state, pred, just)) && schema == h.schema && id@ == h.id
                && state == h.state && super::opt_view(pred) == h.predecessor && super::opt_view(just)
                == h.justification,
            Err(f) => r matches Err(e) && super::failure_view(e) == f,
        },
{
    proof {
        reveal_strlit("");
    }
    reject_unknown(root, &root_keys_list(), "")?;
    let schema = match root.get("schema") {
        Some(Scalar::Integer(value)) => *value,
        Some(_) => {
            return Err(
                HarnessFailure::InvalidField { field: owned("schema"), msg: owned("esperado inteiro, não texto") },
            );
        },
        None => {
            return Err(HarnessFailure::SchemaUnknown { authority: SchemaAuthority::Snapshot, found: 0 });
        },
    };
    if !(1 <= schema && schema <= 5) {
        return Err(HarnessFailure::SchemaUnknown { authority: SchemaAuthority::Snapshot, found: schema });
    }
    let id = require_text(root, "id", "")?;
    validate_id(id.as_str(), "id")?;
    let state_text = require_text(root, "state", "")?;
    let state = match SnapshotState::parse(state_text.as_str()) {
        Some(s) => s,
        None => {
            return Err(HarnessFailure::StateUnknown { value: state_text });
        },
    };
    proof {
        reveal_strlit("FROZEN");
        reveal_strlit("CANDIDATE");
        assert(state_text@ == "FROZEN"@ || state_text@ == "CANDIDATE"@);
        assert(state == (if state_text@ == "FROZEN"@ {
            SnapshotState::Frozen
        } else {
            SnapshotState::Candidate
        }));
    }
    let predecessor = optional_text(root, "predecessor", "")?;
    opt_id_exec(&predecessor, "predecessor")?;
    match &predecessor {
        Some(p) => {
            if crate::text::str_eq(p.as_str(), id.as_str()) {
                return Err(HarnessFailure::PredecessorSelfReference { id: id.clone() });
            }
        },
        None => {},
    }
    let justification = optional_text(root, "justification", "")?;
    match &justification {
        Some(t) => {
            let tv = chars_of(t.as_str());
            let tt = crate::text::trimmed(&tv, 0, tv.len());
            assert(tv@.subrange(0, tv@.len() as int) =~= tv@);
            if tt.len() == 0 {
                return Err(
                    HarnessFailure::InvalidField { field: owned("justification"), msg: owned("justificativa vazia") },
                );
            }
        },
        None => {},
    }
    if justification.is_none() && (state == SnapshotState::Candidate || predecessor.is_some()) {
        return Err(HarnessFailure::MissingField { field: owned("justification") });
    }
    Ok((schema, id, state, predecessor, justification))
}

fn measures_exec(m: &Option<Table>) -> (r: Result<Measures, HarnessFailure>)
    ensures
        match measures_of(super::toml::opt_table_view(*m)) {
            Ok(v) => r == Ok::<Measures, HarnessFailure>(v),
            Err(f) => r matches Err(e) && super::failure_view(e) == f,
        },
{
    let t = match m {
        Some(t) => t,
        None => {
            return Err(HarnessFailure::MissingField { field: owned("measures") });
        },
    };
    reject_unknown(t, &measures_keys_list(), "measures.")?;
    let regions = require_integer(t, "regions", "measures.")?;
    let length = require_integer(t, "length", "measures.")?;
    let hash_text = require_text(t, "fnv1a64", "measures.")?;
    let fnv1a64 = validate_hash(hash_text.as_str(), "measures.fnv1a64")?;
    Ok(Measures { regions, length, fnv1a64 })
}

fn recipe_field(pos: usize) -> (s: String)
    ensures
        s@ == "reconstruction.recipes["@ + decimal(pos as nat) + "]"@,
{
    let mut v: Vec<char> = Vec::new();
    push_str_chars(&mut v, "reconstruction.recipes[");
    push_decimal(&mut v, pos as u64);
    push_str_chars(&mut v, "]");
    string_from(&v)
}

fn recipes_exec(rs: &Vec<String>) -> (r: Result<(), HarnessFailure>)
    ensures
        result_unit_view(r) == recipes_checked(string_rows(rs@), 0),
{
    let ghost sv = string_rows(rs@);
    let mut pos: usize = 0;
    while pos < rs.len()
        invariant
            pos <= rs@.len(),
            sv == string_rows(rs@),
            recipes_checked(sv, 0) == recipes_checked(sv, pos as int),
        decreases rs.len() - pos,
    {
        let field = recipe_field(pos);
        validate_id(rs[pos].as_str(), field.as_str())?;
        let mut seen = false;
        let mut j: usize = 0;
        while j < pos
            invariant
                j <= pos < rs@.len(),
                sv == string_rows(rs@),
                seen == exists|k: int| 0 <= k < j && sv[k] == sv[pos as int],
            decreases pos - j,
        {
            assert(sv[j as int] == rs@[j as int]@);
            assert(sv[pos as int] == rs@[pos as int]@);
            if crate::text::str_eq(rs[j].as_str(), rs[pos].as_str()) {
                seen = true;
            }
            j = j + 1;
        }
        proof {
            if seen {
                let k = choose|k: int| 0 <= k < pos && sv[k] == sv[pos as int];
                assert(sv.take(pos as int)[k] == sv[pos as int]);
            } else {
                assert(!sv.take(pos as int).contains(sv[pos as int])) by {
                    if sv.take(pos as int).contains(sv[pos as int]) {
                        let k = choose|k: int| 0 <= k < pos && sv.take(pos as int)[k] == sv[pos as int];
                        assert(sv[k] == sv[pos as int]);
                    }
                }
            }
        }
        if seen {
            let mut m: Vec<char> = Vec::new();
            push_str_chars(&mut m, "receita '");
            push_str_chars(&mut m, rs[pos].as_str());
            push_str_chars(&mut m, "' declarada duas vezes no mesmo escopo");
            return Err(HarnessFailure::InvalidField { field, msg: text_of(&m) });
        }
        pos = pos + 1;
    }
    Ok(())
}

fn capability_failure(cap: &str, schema: u64, required: u64) -> (f: HarnessFailure)
    ensures
        super::failure_view(f) == capability(cap@, schema, required),
{
    HarnessFailure::CapabilityRequiresSchema {
        authority: SchemaAuthority::Snapshot,
        capability: owned(cap),
        found_schema: schema,
        required_schema: required,
    }
}

fn recon_exec(r: &Option<Table>, schema: u64, id: &String) -> (res: Result<(u64, u64, u64, Option<String>, Vec<String>), HarnessFailure>)
    ensures
        match recon_of(super::toml::opt_table_view(*r), schema, id@) {
            Ok(v) => res matches Ok((eo, ee, em, b, rs)) && eo == v.expected_overrides && ee
                == v.expected_exclusions && em == v.expected_materializations && super::opt_view(b)
                == v.base_snapshot && string_rows(rs@) == v.recipes,
            Err(f) => res matches Err(e) && super::failure_view(e) == f,
        },
{
    let t = match r {
        Some(t) => t,
        None => {
            return Err(HarnessFailure::MissingField { field: owned("reconstruction") });
        },
    };
    let scope = "reconstruction.";
    reject_unknown(t, &reconstruction_keys_list(), scope)?;
    let eo = require_integer(t, "expected_overrides", scope)?;
    let ee = require_integer(t, "expected_exclusions", scope)?;
    let em = match t.get("expected_materializations") {
        None => 0,
        Some(_) => {
            if schema < 4 {
                return Err(capability_failure("reconstruction.expected_materializations", schema, 4));
            }
            require_integer(t, "expected_materializations", scope)?
        },
    };
    let base = optional_text(t, "base_snapshot", scope)?;
    let recipes = optional_list(t, "recipes", scope)?;
    if schema < 2 {
        if base.is_some() {
            return Err(capability_failure("reconstruction.base_snapshot", schema, 2));
        }
        if recipes.len() > 0 {
            return Err(capability_failure("reconstruction.recipes", schema, 2));
        }
    }
    opt_id_exec(&base, "reconstruction.base_snapshot")?;
    match &base {
        Some(b) => {
            if crate::text::str_eq(b.as_str(), id.as_str()) {
                return Err(HarnessFailure::SelfBase { id: id.clone() });
            }
        },
        None => {},
    }
    recipes_exec(&recipes)?;
    Ok((eo, ee, em, base, recipes))
}

fn rule_after_exec(a: &Rule, b: &Rule) -> (r: bool)
    ensures
        r == rule_after(rule_view(*a), rule_view(*b)),
{
    let ra = a.op_rank();
    let rb = b.op_rank();
    if ra != rb {
        return ra > rb;
    }
    vec_lt(&chars_of(b.selector()), &chars_of(a.selector()))
}

proof fn lemma_insert_rule_at(s: Seq<RuleView>, x: RuleView, k: int)
    requires
        0 <= k <= s.len(),
        forall|j: int| k <= j < s.len() ==> rule_after(#[trigger] s[j], x),
        k == 0 || !rule_after(s[k - 1], x),
    ensures
        insert_rule(s, x) == s.insert(k, x),
    decreases s.len(),
{
    if s.len() == 0 {
        assert(s.insert(k, x) =~= seq![x]);
    } else if k == s.len() {
        assert(s.insert(k, x) =~= s.push(x));
    } else {
        assert(rule_after(s[s.len() - 1], x));
        lemma_insert_rule_at(s.drop_last(), x, k);
        assert(s.drop_last().insert(k, x).push(s.last()) =~= s.insert(k, x));
    }
}

/// Inserts a rule at its place in a canonically ordered list.
fn insert_in_order(v: &mut Vec<Rule>, x: Rule)
    ensures
        rules_view(final(v)@) == insert_rule(rules_view(old(v)@), rule_view(x)),
{
    let ghost s = rules_view(v@);
    let mut k = v.len();
    while k > 0 && rule_after_exec(&v[k - 1], &x)
        invariant
            k <= v@.len(),
            s == rules_view(v@),
            forall|j: int| k <= j < s.len() ==> rule_after(#[trigger] s[j], rule_view(x)),
        decreases k,
    {
        k = k - 1;
    }
    proof {
        lemma_insert_rule_at(s, rule_view(x), k as int);
    }
    v.insert(k, x);
    assert(rules_view(v@) =~= s.insert(k as int, rule_view(x)));
}

/// Puts rules in canonical order: by operation rank (exclusions, overrides,
/// materializations), then by selector; equal keys keep their order.
pub fn sort_rules(rules: &mut Vec<Rule>)
    ensures
        rules_view(final(rules)@) == sorted_rules(rules_view(old(rules)@)),
{
    let ghost s = rules_view(rules@);
    let mut out: Vec<Rule> = Vec::new();
    let mut i: usize = 0;
    assert(s.take(0) =~= Seq::<RuleView>::empty());
    assert(rules_view(out@) =~= Seq::<RuleView>::empty());
    while i < rules.len()
        invariant
            i <= rules@.len(),
            s == rules_view(rules@),
            rules_view(out@) == sorted_rules(s.take(i as int)),
        decreases rules.len() - i,
    {
        assert(s.take(i + 1).drop_last() =~= s.take(i as int));
        assert(s.take(i + 1).last() == rule_view(rules@[i as int]));
        insert_in_order(&mut out, clone_rule(&rules[i]));
        i = i + 1;
    }
    assert(s.take(i as int) =~= s);
    *rules = out;
}

fn rules_exec(ts: &Vec<Table>) -> (r: Result<Vec<Rule>, HarnessFailure>)
    ensures
        match rules_built(super::toml::tables_view(ts@), 0) {
            Ok(v) => r matches Ok(rs) && rules_view(rs@) == v,
            Err(f) => r matches Err(e) && super::failure_view(e) == f,
        },
{
    let ghost tv = super::toml::tables_view(ts@);
    let mut rules: Vec<Rule> = Vec::new();
    let mut i: usize = 0;
    proof {
        assert(rules_view(rules@) =~= Seq::<RuleView>::empty());
        match rules_built(tv, 0) {
            Ok(v) => {
                assert(rules_view(rules@) + v =~= v);
            },
            Err(_) => {},
        }
    }
    while i < ts.len()
        invariant
            i <= ts@.len(),
            tv == super::toml::tables_view(ts@),
            rules_built(tv, 0) == (match rules_built(tv, i as int) {
                Ok(rest) => Ok(rules_view(rules@) + rest),
                Err(e) => Err(e),
            }),
        decreases ts.len() - i,
    {
        assert(tv[i as int] == table_view(ts@[i as int]));
        let r = build_rule(&ts[i], i)?;
        let ghost before = rules_view(rules@);
        rules.push(r);
        proof {
            assert(rules_view(rules@) =~= before.push(rule_view(r)));
            match rules_built(tv, i + 1) {
                Ok(rest) => {
                    assert(before + (seq![rule_view(r)] + rest) =~= rules_view(rules@) + rest);
                },
                Err(_) => {},
            }
        }
        i = i + 1;
    }
    proof {
        assert(rules_view(rules@) + Seq::<RuleView>::empty() =~= rules_view(rules@));
    }
    Ok(rules)
}

fn count_exec(rules: &Vec<Rule>) -> (r: (u64, u64))
    ensures
        r.0 == count_overrides(rules_view(rules@)),
        r.1 == count_materializations(rules_view(rules@)),
        r.0 + r.1 <= rules@.len(),
{
    let ghost s = rules_view(rules@);
    let mut o: u64 = 0;
    let mut m: u64 = 0;
    let mut i: usize = 0;
    assert(s.take(0) =~= Seq::<RuleView>::empty());
    while i < rules.len()
        invariant
            i <= rules@.len(),
            s == rules_view(rules@),
            o == count_overrides(s.take(i as int)),
            m == count_materializations(s.take(i as int)),
            o + m <= i,
        decreases rules.len() - i,
    {
        assert(s.take(i + 1).drop_last() =~= s.take(i as int));
        assert(s.take(i + 1).last() == rule_view(rules@[i as int]));
        if rules[i].is_override() {
            o = o + 1;
        }
        if rules[i].is_materialization() {
            m = m + 1;
        }
        i = i + 1;
    }
    assert(s.take(i as int) =~= s);
    (o, m)
}

fn budgets_exec(eo: u64, ee: u64, em: u64, rules: &Vec<Rule>) -> (r: Result<(), HarnessFailure>)
    ensures
        forall|b: Option<Seq<char>>, rs: Seq<Seq<char>>| result_unit_view(r) == #[trigger] budgets_check(
            ReconView {
                expected_overrides: eo,
                expected_exclusions: ee,
                expected_materializations: em,
                base_snapshot: b,
                recipes: rs,
            },
            rules_view(rules@),
        ),
{
    let (fo, fm) = count_exec(rules);
    let fe = rules.len() as u64 - fo - fm;
    if eo > fo {
        return Err(HarnessFailure::OverrideMissing { declared: eo, found: fo });
    }
    if eo < fo {
        return Err(HarnessFailure::OverrideExcess { declared: eo, found: fo });
    }
    if ee > fe {
        return Err(HarnessFailure::ExclusionMissing { declared: ee, found: fe });
    }
    if ee < fe {
        return Err(HarnessFailure::ExclusionExcess { declared: ee, found: fe });
    }
    if em > fm {
        return Err(HarnessFailure::MaterializationMissing { declared: em, found: fm });
    }
    if em < fm {
        return Err(HarnessFailure::MaterializationExcess { declared: em, found: fm });
    }
    Ok(())
}

fn pair_conflict_exec(a: &Rule, b: &Rule) -> (r: Option<HarnessFailure>)
    ensures
        match pair_conflict(rule_view(*a), rule_view(*b)) {
            Some(f) => r matches Some(e) && super::failure_view(e) == f,
            None => r is None,
        },
{
    if !crate::text::str_eq(a.selector(), b.selector()) {
        return None;
    }
    if a.is_override() && b.is_override() {
        return Some(HarnessFailure::OverrideRepeated { key: owned(a.selector()) });
    }
    if a.is_materialization() && b.is_materialization() {
        return Some(HarnessFailure::MaterializationRepeated { key: owned(a.selector()) });
    }
    if !a.is_override() && !a.is_materialization() && !b.is_override() && !b.is_materialization()
        && crate::text::str_eq(a.op(), b.op()) {
        return Some(HarnessFailure::ExclusionRepeated { selector: owned(a.selector()) });
    }
    None
}

fn conflicts_exec(rules: &Vec<Rule>) -> (r: Option<HarnessFailure>)
    ensures
        match conflict_from(rules_view(rules@), 0, 1) {
            Some(f) => r matches Some(e) && super::failure_view(e) == f,
            None => r is None,
        },
{
    let ghost s = rules_view(rules@);
    let n = rules.len();
    let mut p: usize = 0;
    while p < n
        invariant
            n == rules@.len(),
            p <= n,
            s == rules_view(rules@),
            conflict_from(s, 0, 1) == conflict_from(s, p as int, p + 1),
        decreases n - p,
    {
        let mut q: usize = p + 1;
        while q < n
            invariant
                n == rules@.len(),
                p < n,
                p < q <= n,
                s == rules_view(rules@),
                conflict_from(s, 0, 1) == conflict_from(s, p as int, q as int),
            decreases n - q,
        {
            assert(s[p as int] == rule_view(rules@[p as int]));
            assert(s[q as int] == rule_view(rules@[q as int]));
            match pair_conflict_exec(&rules[p], &rules[q]) {
                Some(f) => {
                    return Some(f);
                },
                None => {},
            }
            q = q + 1;
        }
        p = p + 1;
    }
    None
}

/// The snapshot a raw document describes, validated in full.
pub fn build(raw: RawDocument) -> (r: Result<ProjectionSnapshot, HarnessFailure>)
    ensures
        match snapshot_of(doc_view(raw)) {
            Ok(v) => r matches Ok(s) && super::snapshot_view(s) == v,
            Err(f) => r matches Err(e) && super::failure_view(e) == f,
        },
{
    let (schema, id, state, predecessor, justification) = header_exec(&raw.root)?;
    let measures = measures_exec(&raw.measures)?;
    let (expected_overrides, expected_exclusions, expected_materializations, base_snapshot, recipes) =
        recon_exec(&raw.reconstruction, schema, &id)?;
    let mut rules = rules_exec(&raw.rules)?;
    validate_rules(schema, rules.as_slice(), SchemaAuthority::Snapshot)?;
    budgets_exec(expected_overrides, expected_exclusions, expected_materializations, &rules)?;
    match conflicts_exec(&rules) {
        Some(f) => {
            return Err(f);
        },
        None => {},
    }
    sort_rules(&mut rules);
    Ok(
        ProjectionSnapshot {
            schema,
            id,
            state,
            predecessor,
            justification,
            measures,
            expected_overrides,
            expected_exclusions,
            expected_materializations,
            base_snapshot,
            recipes,
            rules,
        },
    )
}

/// Reads a snapshot text and validates the whole schema. Touches no file.
pub fn parse(text: &str) -> (r: Result<ProjectionSnapshot, HarnessFailure>)
    ensures
        match parse_spec(text@) {
            Ok(v) => r matches Ok(s) && super::snapshot_view(s) == v,
            Err(f) => r matches Err(e) && super::failure_view(e) == f,
        },
{
    match parse_raw(text) {
        Err(e) => Err(HarnessFailure::Toml(e)),
        Ok(raw) => build(raw),
    }
}

} // verus!
