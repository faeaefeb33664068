//! Explicit map from a current region to the historical identity and summary
//! that a frozen reconstruction expects.
//!
//! `current` is the spelling of the current catalogue; `historical` is the
//! spelling the reconstruction authority expects. The two sides never share
//! a field name, so the direction cannot be read backwards. Restoring the
//! identity (key, domain or layer) takes the region out of reach of the
//! other rules; restoring the summary does not.
use crate::nav_projection_snapshot::message::{failure_text, lemma_failure_text};
use crate::nav_projection_snapshot::parser::{
    check_known, opt_text, optional_text, reject_unknown, req_text, require_text, strs,
};
use crate::nav_projection_snapshot::toml::{
    doc_view, has_key, parse_raw_with_array, raw_document_with, table_get, table_view, tables_view, Scalar,
    ScalarView, Table,
};
use crate::nav_projection_snapshot::{failure_view, opt_view, FailureView, HarnessFailure};
use crate::text::{chars_of, decimal, push_decimal, push_str_chars, string_from};
use vstd::prelude::*;

verus! {

/// First version of the format: identity only.
pub const RENAME_MAP_SCHEMA_V1: u64 = 1;

/// Second version: adds the summary pair.
pub const RENAME_MAP_SCHEMA_V2: u64 = 2;

/// Highest accepted version of the format.
pub const RENAME_MAP_SCHEMA: u64 = 2;

/// A declared relation between the current and the historical identity of
/// one region.
#[derive(Debug, Clone, PartialEq, Eq)]
pub struct RenameEntry {
    /// Current key: the selector; it must exist once in the current catalogue.
    pub current_key: String,
    /// Key that the reconstruction authority expects, when it differs.
    pub historical_key: Option<String>,
    /// Declared current domain, a guard against a stale map.
    pub current_domain: Option<String>,
    /// Restored historical domain.
    pub historical_domain: Option<String>,
    /// Declared current layer, a guard against a stale map.
    pub current_layer: Option<String>,
    /// Restored historical layer.
    pub historical_layer: Option<String>,
    /// Declared current summary: an exact guard, never a selector.
    pub current_summary: Option<String>,
    /// Summary just before the current rename, restored.
    pub historical_summary: Option<String>,
}

pub struct RenameEntryView {
    pub current_key: Seq<char>,
    pub historical_key: Option<Seq<char>>,
    pub current_domain: Option<Seq<char>>,
    pub historical_domain: Option<Seq<char>>,
    pub current_layer: Option<Seq<char>>,
    pub historical_layer: Option<Seq<char>>,
    pub current_summary: Option<Seq<char>>,
    pub historical_summary: Option<Seq<char>>,
}

pub open spec fn rename_entry_view(e: RenameEntry) -> RenameEntryView {
    RenameEntryView {
        current_key: e.current_key@,
        historical_key: opt_view(e.historical_key),
        current_domain: opt_view(e.current_domain),
        historical_domain: opt_view(e.historical_domain),
        current_layer: opt_view(e.current_layer),
        historical_layer: opt_view(e.historical_layer),
        current_summary: opt_view(e.current_summary),
        historical_summary: opt_view(e.historical_summary),
    }
}

pub open spec fn rename_entries_view(es: Seq<RenameEntry>) -> Seq<RenameEntryView> {
    es.map_values(|e: RenameEntry| rename_entry_view(e))
}

impl RenameEntry {
    /// True when the entry restores the identity by which the projection
    /// recognizes the region: key, domain or layer. Restoring the summary
    /// alone does not count.
    pub fn restores_identity(&self) -> (b: bool)
        ensures
            b == (self.historical_key is Some || self.historical_domain is Some || self.historical_layer is Some),
    {
        self.historical_key.is_some() || self.historical_domain.is_some() || self.historical_layer.is_some()
    }
}

/// The whole map, in the order of the current keys.
#[derive(Debug, Clone, PartialEq, Eq)]
pub struct RenameMap {
    pub schema: u64,
    pub entries: Vec<RenameEntry>,
}

pub struct RenameMapView {
    pub schema: u64,
    pub entries: Seq<RenameEntryView>,
}

pub open spec fn rename_map_view(m: RenameMap) -> RenameMapView {
    RenameMapView { schema: m.schema, entries: rename_entries_view(m.entries@) }
}

/// Index of the first entry, from `i` on, whose historical key is `key`.
pub open spec fn find_historical(es: Seq<RenameEntryView>, key: Seq<char>, i: int) -> Option<int>
    decreases es.len() - i,
{
    if i < 0 || i >= es.len() {
        None
    } else if es[i].historical_key == Some(key) {
        Some(i)
    } else {
        find_historical(es, key, i + 1)
    }
}

/// Index of the first entry, from `i` on, whose current key is `key`.
pub open spec fn find_current(es: Seq<RenameEntryView>, key: Seq<char>, i: int) -> Option<int>
    decreases es.len() - i,
{
    if i < 0 || i >= es.len() {
        None
    } else if es[i].current_key == key {
        Some(i)
    } else {
        find_current(es, key, i + 1)
    }
}

impl RenameMap {
    /// The entry whose historical identity is the given spelling.
    pub fn by_historical_key(&self, key: &str) -> (r: Option<&RenameEntry>)
        ensures
            match find_historical(rename_entries_view(self.entries@), key@, 0) {
                Some(k) => r matches Some(e) && rename_entry_view(*e) == rename_entries_view(self.entries@)[k],
                None => r is None,
            },
    {
        let ghost ev = rename_entries_view(self.entries@);
        let mut i: usize = 0;
        while i < self.entries.len()
            invariant
                i <= self.entries@.len(),
                ev == rename_entries_view(self.entries@),
                find_historical(ev, key@, 0) == find_historical(ev, key@, i as int),
            decreases self.entries.len() - i,
        {
            let hit = match &self.entries[i].historical_key {
                Some(h) => crate::text::str_eq(h.as_str(), key),
                None => false,
            };
            if hit {
                return Some(&self.entries[i]);
            }
            i = i + 1;
        }
        None
    }

    /// The entry that names the given current region.
    pub fn by_current_key(&self, key: &str) -> (r: Option<&RenameEntry>)
        ensures
            match find_current(rename_entries_view(self.entries@), key@, 0) {
                Some(k) => r matches Some(e) && rename_entry_view(*e) == rename_entries_view(self.entries@)[k],
                None => r is None,
            },
    {
        let ghost ev = rename_entries_view(self.entries@);
        let mut i: usize = 0;
        while i < self.entries.len()
            invariant
                i <= self.entries@.len(),
                ev == rename_entries_view(self.entries@),
                find_current(ev, key@, 0) == find_current(ev, key@, i as int),
            decreases self.entries.len() - i,
        {
            if crate::text::str_eq(self.entries[i].current_key.as_str(), key) {
                return Some(&self.entries[i]);
            }
            i = i + 1;
        }
        None
    }
}


/// The keys of an entry.
pub open spec fn rename_keys() -> Seq<Seq<char>> {
    seq![
        "current_key"@,
        "historical_key"@,
        "current_domain"@,
        "historical_domain"@,
        "current_layer"@,
        "historical_layer"@,
        "current_summary"@,
        "historical_summary"@,
    ]
}

/// `rename[i].`, the scope of the entry at position `i`.
pub open spec fn rename_scope(i: nat) -> Seq<char> {
    "rename["@ + decimal(i) + "]."@
}

/// A summary field in a map whose schema cannot declare it.
pub open spec fn v2_only(scope: Seq<char>, field: Seq<char>, schema: u64) -> Seq<char> {
    scope + field + " exige schema 2; o mapa declara schema "@ + decimal(schema as nat)
}

pub open spec fn is_blank_opt(o: Option<Seq<char>>) -> bool {
    o == Some(Seq::<char>::empty())
}

/// A guard without its destination, a destination without its guard, or a
/// destination equal to its guard.
pub open spec fn pair_error(scope: Seq<char>, guard: Option<Seq<char>>, dest: Option<Seq<char>>, name: Seq<char>) -> Option<
    Seq<char>,
> {
    if (guard is Some) != (dest is Some) {
        Some(scope + "current_"@ + name + " e historical_"@ + name + " precisam vir juntos"@)
    } else if guard is Some && guard == dest {
        Some(scope + "historical_"@ + name + " repete o valor corrente e não restaura nada"@)
    } else {
        None
    }
}

/// The checks of an entry once its fields are read.
pub open spec fn entry_checked(scope: Seq<char>, e: RenameEntryView) -> Result<RenameEntryView, Seq<char>> {
    if is_blank_opt(e.historical_key) {
        Err(scope + "historical_key vazio"@)
    } else if is_blank_opt(e.current_domain) {
        Err(scope + "current_domain vazio"@)
    } else if is_blank_opt(e.historical_domain) {
        Err(scope + "historical_domain vazio"@)
    } else if is_blank_opt(e.current_layer) {
        Err(scope + "current_layer vazio"@)
    } else if is_blank_opt(e.historical_layer) {
        Err(scope + "historical_layer vazio"@)
    } else if is_blank_opt(e.current_summary) {
        Err(scope + "current_summary vazio"@)
    } else if is_blank_opt(e.historical_summary) {
        Err(scope + "historical_summary vazio"@)
    } else if pair_error(scope, e.current_domain, e.historical_domain, "domain"@) is Some {
        Err(pair_error(scope, e.current_domain, e.historical_domain, "domain"@)->Some_0)
    } else if pair_error(scope, e.current_layer, e.historical_layer, "layer"@) is Some {
        Err(pair_error(scope, e.current_layer, e.historical_layer, "layer"@)->Some_0)
    } else if pair_error(scope, e.current_summary, e.historical_summary, "summary"@) is Some {
        Err(pair_error(scope, e.current_summary, e.historical_summary, "summary"@)->Some_0)
    } else if e.historical_key == Some(e.current_key) {
        Err(scope + "historical_key repete a chave corrente e não restaura nada"@)
    } else if e.historical_key is None && e.historical_domain is None && e.historical_layer is None
        && e.historical_summary is None {
        Err(scope + "não declara nenhuma restauração"@)
    } else {
        Ok(e)
    }
}

pub open spec fn fail_text<T>(r: Result<T, FailureView>) -> Seq<char>
    recommends
        r is Err,
{
    match r {
        Err(f) => failure_text(f),
        Ok(_) => Seq::empty(),
    }
}

/// The entry one table declares under the schema of the map.
pub open spec fn rename_entry_of(t: Seq<(Seq<char>, ScalarView)>, i: nat, schema: u64) -> Result<RenameEntryView, Seq<char>> {
    let scope = rename_scope(i);
    if check_known(t, rename_keys(), scope) is Err {
        Err(fail_text(check_known(t, rename_keys(), scope)))
    } else if schema < RENAME_MAP_SCHEMA_V2 && has_key(t, "current_summary"@) {
        Err(v2_only(scope, "current_summary"@, schema))
    } else if schema < RENAME_MAP_SCHEMA_V2 && has_key(t, "historical_summary"@) {
        Err(v2_only(scope, "historical_summary"@, schema))
    } else {
        match req_text(t, "current_key"@, scope) {
            Err(f) => Err(failure_text(f)),
            Ok(ck) => if ck.len() == 0 {
                Err(scope + "current_key vazio"@)
            } else {
                let hk = opt_text(t, "historical_key"@, scope);
                let cd = opt_text(t, "current_domain"@, scope);
                let hd = opt_text(t, "historical_domain"@, scope);
                let cl = opt_text(t, "current_layer"@, scope);
                let hl = opt_text(t, "historical_layer"@, scope);
                let cs = opt_text(t, "current_summary"@, scope);
                let hs = opt_text(t, "historical_summary"@, scope);
                if hk is Err {
                    Err(fail_text(hk))
                } else if cd is Err {
                    Err(fail_text(cd))
                } else if hd is Err {
                    Err(fail_text(hd))
                } else if cl is Err {
                    Err(fail_text(cl))
                } else if hl is Err {
                    Err(fail_text(hl))
                } else if cs is Err {
                    Err(fail_text(cs))
                } else if hs is Err {
                    Err(fail_text(hs))
                } else {
                    entry_checked(
                        scope,
                        RenameEntryView {
                            current_key: ck,
                            historical_key: hk->Ok_0,
                            current_domain: cd->Ok_0,
                            historical_domain: hd->Ok_0,
                            current_layer: cl->Ok_0,
                            historical_layer: hl->Ok_0,
                            current_summary: cs->Ok_0,
                            historical_summary: hs->Ok_0,
                        },
                    )
                }
            },
        }
    }
}

proof fn lemma_get_has_key(t: Seq<(Seq<char>, ScalarView)>, k: Seq<char>)
    ensures
        has_key(t, k) == (table_get(t, k) is Some),
    decreases t.len(),
{
    if t.len() > 0 {
        lemma_get_has_key(t.drop_first(), k);
        if has_key(t, k) && t[0].0 != k {
            let i = choose|i: int| 0 <= i < t.len() && #[trigger] t[i].0 == k;
            assert(t.drop_first()[i - 1].0 == k);
        }
        if has_key(t.drop_first(), k) {
            let i = choose|i: int| 0 <= i < t.drop_first().len() && #[trigger] t.drop_first()[i].0 == k;
            assert(t[i + 1].0 == k);
        }
        if t[0].0 == k {
            assert(has_key(t, k));
        }
    }
}

fn scope_text(i: usize) -> (s: String)
    ensures
        s@ == rename_scope(i as nat),
{
    let mut v: Vec<char> = Vec::new();
    push_str_chars(&mut v, "rename[");
    push_decimal(&mut v, i as u64);
    push_str_chars(&mut v, "].");
    string_from(&v)
}

fn keys_list() -> (v: Vec<&'static str>)
    ensures
        strs(v@) == rename_keys(),
{
    let mut v: Vec<&'static str> = Vec::new();
    v.push("current_key");
    v.push("historical_key");
    v.push("current_domain");
    v.push("historical_domain");
    v.push("current_layer");
    v.push("historical_layer");
    v.push("current_summary");
    v.push("historical_summary");
    assert(strs(v@) =~= rename_keys());
    v
}

fn failure_string(f: HarnessFailure) -> (s: String)
    ensures
        s@ == failure_text(failure_view(f)),
{
    proof {
        lemma_failure_text(f);
    }
    f.message()
}

fn scoped(scope: &String, tail: &str) -> (s: String)
    ensures
        s@ == scope@ + tail@,
{
    let mut v: Vec<char> = Vec::new();
    push_str_chars(&mut v, scope.as_str());
    push_str_chars(&mut v, tail);
    string_from(&v)
}

fn is_blank(o: &Option<String>) -> (b: bool)
    ensures
        b == is_blank_opt(opt_view(*o)),
{
    match o {
        Some(v) => {
            let c = chars_of(v.as_str());
            proof {
                if c.len() == 0 {
                    assert(v@ =~= Seq::<char>::empty());
                }
            }
            c.len() == 0
        },
        None => false,
    }
}

fn opt_same(a: &Option<String>, b: &Option<String>) -> (r: bool)
    ensures
        r == (opt_view(*a) == opt_view(*b)),
{
    match (a, b) {
        (Some(x), Some(y)) => crate::text::str_eq(x.as_str(), y.as_str()),
        (None, None) => true,
        _ => false,
    }
}

fn check_pair(scope: &String, guard: &Option<String>, dest: &Option<String>, name: &str) -> (r: Option<String>)
    ensures
        match pair_error(scope@, opt_view(*guard), opt_view(*dest), name@) {
            Some(m) => r matches Some(x) && x@ == m,
            None => r is None,
        },
{
    if guard.is_some() != dest.is_some() {
        let mut v: Vec<char> = Vec::new();
        push_str_chars(&mut v, scope.as_str());
        push_str_chars(&mut v, "current_");
        push_str_chars(&mut v, name);
        push_str_chars(&mut v, " e historical_");
        push_str_chars(&mut v, name);
        push_str_chars(&mut v, " precisam vir juntos");
        return Some(string_from(&v));
    }
    if guard.is_some() && opt_same(guard, dest) {
        let mut v: Vec<char> = Vec::new();
        push_str_chars(&mut v, scope.as_str());
        push_str_chars(&mut v, "historical_");
        push_str_chars(&mut v, name);
        push_str_chars(&mut v, " repete o valor corrente e não restaura nada");
        return Some(string_from(&v));
    }
    None
}

fn read_opt(t: &Table, key: &str, scope: &String) -> (r: Result<Option<String>, String>)
    ensures
        match opt_text(table_view(*t), key@, scope@) {
            Ok(v) => r matches Ok(x) && opt_view(x) == v,
            Err(f) => r matches Err(m) && m@ == failure_text(f),
        },
{
    match optional_text(t, key, scope.as_str()) {
        Ok(v) => Ok(v),
        Err(f) => Err(failure_string(f)),
    }
}

fn build_rename_entry(t: &Table, i: usize, schema: u64) -> (r: Result<RenameEntry, String>)
    ensures
        match rename_entry_of(table_view(*t), i as nat, schema) {
            Ok(v) => r matches Ok(e) && rename_entry_view(e) == v,
            Err(m) => r matches Err(x) && x@ == m,
        },
{
    let scope = scope_text(i);
    let keys = keys_list();
    match reject_unknown(t, &keys, scope.as_str()) {
        Err(f) => {
            return Err(failure_string(f));
        },
        Ok(()) => {},
    }
    assert(check_known(table_view(*t), rename_keys(), scope@) is Ok);
    if schema < RENAME_MAP_SCHEMA_V2 {
        if t.get("current_summary").is_some() {
            let mut v: Vec<char> = Vec::new();
            push_str_chars(&mut v, scope.as_str());
            push_str_chars(&mut v, "current_summary");
            push_str_chars(&mut v, " exige schema 2; o mapa declara schema ");
            push_decimal(&mut v, schema);
            proof {
                lemma_get_has_key(table_view(*t), "current_summary"@);
            }
            assert(v@ =~= v2_only(scope@, "current_summary"@, schema));
            return Err(string_from(&v));
        }
        if t.get("historical_summary").is_some() {
            let mut v: Vec<char> = Vec::new();
            push_str_chars(&mut v, scope.as_str());
            push_str_chars(&mut v, "historical_summary");
            push_str_chars(&mut v, " exige schema 2; o mapa declara schema ");
            push_decimal(&mut v, schema);
            proof {
                lemma_get_has_key(table_view(*t), "current_summary"@);
                lemma_get_has_key(table_view(*t), "historical_summary"@);
            }
            assert(v@ =~= v2_only(scope@, "historical_summary"@, schema));
            return Err(string_from(&v));
        }
        proof {
            lemma_get_has_key(table_view(*t), "current_summary"@);
            lemma_get_has_key(table_view(*t), "historical_summary"@);
        }
    }
    let current_key = match require_text(t, "current_key", scope.as_str()) {
        Ok(v) => v,
        Err(f) => {
            return Err(failure_string(f));
        },
    };
    if chars_of(current_key.as_str()).len() == 0 {
        return Err(scoped(&scope, "current_key vazio"));
    }
    let historical_key = read_opt(t, "historical_key", &scope)?;
    let current_domain = read_opt(t, "current_domain", &scope)?;
    let historical_domain = read_opt(t, "historical_domain", &scope)?;
    let current_layer = read_opt(t, "current_layer", &scope)?;
    let historical_layer = read_opt(t, "historical_layer", &scope)?;
    let current_summary = read_opt(t, "current_summary", &scope)?;
    let historical_summary = read_opt(t, "historical_summary", &scope)?;
    if is_blank(&historical_key) {
        return Err(scoped(&scope, "historical_key vazio"));
    }
    if is_blank(&current_domain) {
        return Err(scoped(&scope, "current_domain vazio"));
    }
    if is_blank(&historical_domain) {
        return Err(scoped(&scope, "historical_domain vazio"));
    }
    if is_blank(&current_layer) {
        return Err(scoped(&scope, "current_layer vazio"));
    }
    if is_blank(&historical_layer) {
        return Err(scoped(&scope, "historical_layer vazio"));
    }
    if is_blank(&current_summary) {
        return Err(scoped(&scope, "current_summary vazio"));
    }
    if is_blank(&historical_summary) {
        return Err(scoped(&scope, "historical_summary vazio"));
    }
    match check_pair(&scope, &current_domain, &historical_domain, "domain") {
        Some(m) => {
            return Err(m);
        },
        None => {},
    }
    match check_pair(&scope, &current_layer, &historical_layer, "layer") {
        Some(m) => {
            return Err(m);
        },
        None => {},
    }
    match check_pair(&scope, &current_summary, &historical_summary, "summary") {
        Some(m) => {
            return Err(m);
        },
        None => {},
    }
    let repeats = match &historical_key {
        Some(h) => crate::text::str_eq(h.as_str(), current_key.as_str()),
        None => false,
    };
    if repeats {
        return Err(scoped(&scope, "historical_key repete a chave corrente e não restaura nada"));
    }
    if historical_key.is_none() && historical_domain.is_none() && historical_layer.is_none()
        && historical_summary.is_none() {
        return Err(scoped(&scope, "não declara nenhuma restauração"));
    }
    Ok(
        RenameEntry {
            current_key,
            historical_key,
            current_domain,
            historical_domain,
            current_layer,
            historical_layer,
            current_summary,
            historical_summary,
        },
    )
}


/// The entries of the tables from position `i` on; the first failure wins.
pub open spec fn rename_entries_from(ts: Seq<Seq<(Seq<char>, ScalarView)>>, i: int, schema: u64) -> Result<
    Seq<RenameEntryView>,
    Seq<char>,
>
    decreases ts.len() - i,
{
    if i < 0 || i >= ts.len() {
        Ok(Seq::empty())
    } else {
        match rename_entry_of(ts[i], i as nat, schema) {
            Err(m) => Err(m),
            Ok(e) => match rename_entries_from(ts, i + 1, schema) {
                Err(m) => Err(m),
                Ok(rest) => Ok(seq![e] + rest),
            },
        }
    }
}

/// The first entry, from `i` on, that repeats the current key or the
/// historical key of an earlier one.
pub open spec fn ambiguous_from(es: Seq<RenameEntryView>, i: int) -> Option<Seq<char>>
    decreases es.len() - i,
{
    if i < 0 || i >= es.len() {
        None
    } else if exists|j: int| 0 <= j < i && #[trigger] es[j].current_key == es[i].current_key {
        Some("chave corrente '"@ + es[i].current_key + "' declarada em duas entradas"@)
    } else if es[i].historical_key is Some && exists|j: int|
        0 <= j < i && #[trigger] es[j].historical_key == es[i].historical_key {
        Some("identidade histórica '"@ + es[i].historical_key->Some_0 + "' reivindicada por duas entradas"@)
    } else {
        ambiguous_from(es, i + 1)
    }
}

/// The first entry, from `i` on, whose historical key is the current key of
/// some entry: a swap of names whose result would depend on an order.
pub open spec fn swapped_from(es: Seq<RenameEntryView>, i: int) -> Option<Seq<char>>
    decreases es.len() - i,
{
    if i < 0 || i >= es.len() {
        None
    } else if es[i].historical_key is Some && exists|j: int|
        0 <= j < es.len() && Some(#[trigger] es[j].current_key) == es[i].historical_key {
        Some(
            "'"@ + es[i].historical_key->Some_0
                + "' aparece como identidade histórica e como chave corrente no mesmo mapa"@,
        )
    } else {
        swapped_from(es, i + 1)
    }
}

pub open spec fn current_key_of() -> spec_fn(RenameEntryView) -> Seq<char> {
    |e: RenameEntryView| e.current_key
}

/// The entries in the order of their current keys.
pub open spec fn sorted_renames(es: Seq<RenameEntryView>) -> Seq<RenameEntryView>
    decreases es.len(),
{
    if es.len() == 0 {
        es
    } else {
        crate::nav_projection_store::put(sorted_renames(es.drop_last()), current_key_of(), es.last())
    }
}

/// What the text of a rename map declares.
pub open spec fn rename_map_spec(text: Seq<char>) -> Result<RenameMapView, Seq<char>> {
    match raw_document_with(text, "rename"@) {
        Err((ln, m)) => Err("linha "@ + decimal(ln as nat) + ": "@ + m),
        Ok(d) => if d.reconstruction is Some || d.measures is Some {
            Err("o mapa de renomeação não tem seção de reconstrução nem de medidas"@)
        } else if check_known(d.root, seq!["schema"@], Seq::empty()) is Err {
            Err(fail_text(check_known(d.root, seq!["schema"@], Seq::empty())))
        } else {
            match table_get(d.root, "schema"@) {
                Some(ScalarView::Integer(schema)) => if schema != RENAME_MAP_SCHEMA_V1 && schema
                    != RENAME_MAP_SCHEMA_V2 {
                    Err(
                        "schema "@ + decimal(schema as nat)
                            + " desconhecido para mapa de renomeação; este formato aceita 1 e 2"@,
                    )
                } else if d.rules.len() == 0 {
                    Err("o mapa de renomeação precisa declarar ao menos uma entrada"@)
                } else {
                    match rename_entries_from(d.rules, 0, schema) {
                        Err(m) => Err(m),
                        Ok(es) => match ambiguous_from(es, 0) {
                            Some(m) => Err(m),
                            None => match swapped_from(es, 0) {
                                Some(m) => Err(m),
                                None => Ok(RenameMapView { schema, entries: sorted_renames(es) }),
                            },
                        },
                    }
                },
                _ => Err("campo 'schema' ausente ou não inteiro"@),
            }
        },
    }
}

proof fn lemma_renames_len(ts: Seq<Seq<(Seq<char>, ScalarView)>>, i: int, schema: u64)
    requires
        0 <= i <= ts.len(),
        rename_entries_from(ts, i, schema) is Ok,
    ensures
        rename_entries_from(ts, i, schema)->Ok_0.len() == ts.len() - i,
    decreases ts.len() - i,
{
    if i < ts.len() {
        lemma_renames_len(ts, i + 1, schema);
    }
}

proof fn lemma_sorted_renames(es: Seq<RenameEntryView>)
    ensures
        crate::nav_projection_recipe::ids_increasing(sorted_renames(es).map_values(current_key_of())),
        es.len() > 0 ==> sorted_renames(es).len() > 0,
    decreases es.len(),
{
    if es.len() == 0 {
        assert(sorted_renames(es).map_values(current_key_of()).len() == 0);
    } else {
        lemma_sorted_renames(es.drop_last());
        crate::nav_projection_store::lemma_put_increasing(sorted_renames(es.drop_last()), current_key_of(), es.last());
    }
}

/// A parsed rename map declares schema 1 or 2 and at least one entry, and
/// its entries come in strictly increasing order of current key.
pub proof fn law_parsed_rename_map(text: Seq<char>)
    requires
        rename_map_spec(text) is Ok,
    ensures
        rename_map_spec(text)->Ok_0.schema == RENAME_MAP_SCHEMA_V1 || rename_map_spec(text)->Ok_0.schema
            == RENAME_MAP_SCHEMA_V2,
        rename_map_spec(text)->Ok_0.entries.len() > 0,
        crate::nav_projection_recipe::ids_increasing(rename_map_spec(text)->Ok_0.entries.map_values(current_key_of())),
{
    let d = raw_document_with(text, "rename"@)->Ok_0;
    let schema = table_get(d.root, "schema"@)->Some_0->Integer_0;
    let es = rename_entries_from(d.rules, 0, schema)->Ok_0;
    lemma_renames_len(d.rules, 0, schema);
    lemma_sorted_renames(es);
}

fn build_renames(tables: &Vec<Table>, schema: u64) -> (r: Result<Vec<RenameEntry>, String>)
    ensures
        match rename_entries_from(tables_view(tables@), 0, schema) {
            Ok(v) => r matches Ok(es) && rename_entries_view(es@) == v,
            Err(m) => r matches Err(x) && x@ == m,
        },
{
    let ghost ts = tables_view(tables@);
    let mut out: Vec<RenameEntry> = Vec::new();
    let mut i: usize = 0;
    assert(rename_entries_view(out@) =~= Seq::<RenameEntryView>::empty());
    while i < tables.len()
        invariant
            i <= tables@.len(),
            ts == tables_view(tables@),
            rename_entries_from(ts, 0, schema) == match rename_entries_from(ts, i as int, schema) {
                Ok(rest) => Ok(rename_entries_view(out@) + rest),
                Err(e) => Err(e),
            },
        decreases tables.len() - i,
    {
        assert(ts[i as int] == table_view(tables@[i as int]));
        match build_rename_entry(&tables[i], i, schema) {
            Err(m) => {
                return Err(m);
            },
            Ok(entry) => {
                let ghost before = rename_entries_view(out@);
                out.push(entry);
                proof {
                    assert(rename_entries_view(out@) =~= before.push(rename_entry_view(entry)));
                    match rename_entries_from(ts, i + 1, schema) {
                        Ok(rest) => {
                            assert(before + (seq![rename_entry_view(entry)] + rest) =~= rename_entries_view(out@) + rest);
                        },
                        Err(_) => {},
                    }
                }
            },
        }
        i = i + 1;
    }
    assert(rename_entries_view(out@) + Seq::<RenameEntryView>::empty() =~= rename_entries_view(out@));
    Ok(out)
}

fn quoted_message(before: &str, middle: &String, after: &str) -> (s: String)
    ensures
        s@ == before@ + middle@ + after@,
{
    let mut v: Vec<char> = Vec::new();
    push_str_chars(&mut v, before);
    push_str_chars(&mut v, middle.as_str());
    push_str_chars(&mut v, after);
    string_from(&v)
}

fn reject_ambiguity(es: &Vec<RenameEntry>) -> (r: Result<(), String>)
    ensures
        match ambiguous_from(rename_entries_view(es@), 0) {
            Some(m) => r matches Err(x) && x@ == m,
            None => r is Ok,
        },
{
    let ghost ev = rename_entries_view(es@);
    let mut i: usize = 0;
    while i < es.len()
        invariant
            i <= es@.len(),
            ev == rename_entries_view(es@),
            ambiguous_from(ev, 0) == ambiguous_from(ev, i as int),
        decreases es.len() - i,
    {
        let mut same_current = false;
        let mut same_historical = false;
        let mut j: usize = 0;
        while j < i
            invariant
                j <= i < es@.len(),
                ev == rename_entries_view(es@),
                same_current == exists|k: int| 0 <= k < j && #[trigger] ev[k].current_key == ev[i as int].current_key,
                same_historical == (ev[i as int].historical_key is Some && exists|k: int|
                    0 <= k < j && #[trigger] ev[k].historical_key == ev[i as int].historical_key),
            decreases i - j,
        {
            if crate::text::str_eq(es[j].current_key.as_str(), es[i].current_key.as_str()) {
                same_current = true;
            }
            match (&es[j].historical_key, &es[i].historical_key) {
                (Some(a), Some(b)) => {
                    if crate::text::str_eq(a.as_str(), b.as_str()) {
                        same_historical = true;
                    }
                },
                _ => {},
            }
            proof {
                if ev[j as int].current_key == ev[i as int].current_key {
                    assert(exists|k: int| 0 <= k < j + 1 && #[trigger] ev[k].current_key == ev[i as int].current_key);
                }
                if ev[i as int].historical_key is Some && ev[j as int].historical_key == ev[i as int].historical_key {
                    assert(exists|k: int| 0 <= k < j + 1 && #[trigger] ev[k].historical_key == ev[i as int].historical_key);
                }
            }
            j = j + 1;
        }
        if same_current {
            return Err(quoted_message("chave corrente '", &es[i].current_key, "' declarada em duas entradas"));
        }
        if same_historical {
            match &es[i].historical_key {
                Some(h) => {
                    return Err(quoted_message("identidade histórica '", h, "' reivindicada por duas entradas"));
                },
                None => {},
            }
        }
        i = i + 1;
    }
    Ok(())
}

fn reject_swaps(es: &Vec<RenameEntry>) -> (r: Result<(), String>)
    ensures
        match swapped_from(rename_entries_view(es@), 0) {
            Some(m) => r matches Err(x) && x@ == m,
            None => r is Ok,
        },
{
    let ghost ev = rename_entries_view(es@);
    let mut i: usize = 0;
    while i < es.len()
        invariant
            i <= es@.len(),
            ev == rename_entries_view(es@),
            swapped_from(ev, 0) == swapped_from(ev, i as int),
        decreases es.len() - i,
    {
        match &es[i].historical_key {
            Some(h) => {
                let mut found = false;
                let mut j: usize = 0;
                while j < es.len()
                    invariant
                        j <= es@.len(),
                        i < es@.len(),
                        ev == rename_entries_view(es@),
                        ev[i as int].historical_key == Some(h@),
                        found == exists|k: int| 0 <= k < j && Some(#[trigger] ev[k].current_key) == ev[i as int].historical_key,
                    decreases es.len() - j,
                {
                    if crate::text::str_eq(es[j].current_key.as_str(), h.as_str()) {
                        found = true;
                    }
                    proof {
                        if ev[j as int].current_key == h@ {
                            assert(exists|k: int| 0 <= k < j + 1 && Some(#[trigger] ev[k].current_key) == ev[i as int].historical_key);
                        }
                    }
                    j = j + 1;
                }
                if found {
                    return Err(
                        quoted_message("'", h, "' aparece como identidade histórica e como chave corrente no mesmo mapa"),
                    );
                }
            },
            None => {},
        }
        i = i + 1;
    }
    Ok(())
}

fn put_rename(v: &mut Vec<RenameEntry>, x: RenameEntry)
    requires
        crate::nav_projection_recipe::ids_increasing(rename_entries_view(old(v)@).map_values(current_key_of())),
    ensures
        crate::nav_projection_recipe::ids_increasing(rename_entries_view(final(v)@).map_values(current_key_of())),
        rename_entries_view(final(v)@) == crate::nav_projection_store::put(
            rename_entries_view(old(v)@),
            current_key_of(),
            rename_entry_view(x),
        ),
{
    let ghost sv = rename_entries_view(v@);
    let ghost ids = sv.map_values(current_key_of());
    let mut rs: Vec<Vec<char>> = Vec::new();
    let mut i: usize = 0;
    while i < v.len()
        invariant
            i <= v@.len(),
            sv == rename_entries_view(v@),
            ids == sv.map_values(current_key_of()),
            rs@.len() == i,
            forall|j: int| 0 <= j < i ==> #[trigger] rs@[j]@ == ids[j],
        decreases v.len() - i,
    {
        rs.push(chars_of(v[i].current_key.as_str()));
        i = i + 1;
    }
    assert(crate::text::rows(rs@) =~= ids);
    let xid = chars_of(x.current_key.as_str());
    let k = crate::nav_projection_recipe::slot(&rs, &xid);
    proof {
        crate::nav_projection_store::lemma_first_not_below(ids, xid@, k as int, 0);
    }
    if k < v.len() && crate::text::vec_eq(&rs[k], &xid) {
        v.set(k, x);
        assert(rename_entries_view(v@) =~= sv.update(k as int, rename_entry_view(x)));
        assert(rename_entries_view(v@).map_values(current_key_of()) =~= ids);
    } else {
        proof {
            if k < ids.len() {
                crate::text::lemma_seq_lt_total(ids[k as int], xid@);
            }
            crate::nav_projection_recipe::lemma_insert_increasing(ids, k as int, xid@);
        }
        v.insert(k, x);
        assert(rename_entries_view(v@) =~= sv.insert(k as int, rename_entry_view(x)));
        assert(rename_entries_view(v@).map_values(current_key_of()) =~= ids.insert(k as int, xid@));
    }
}

fn sort_renames(es: Vec<RenameEntry>) -> (r: Vec<RenameEntry>)
    ensures
        rename_entries_view(r@) == sorted_renames(rename_entries_view(es@)),
{
    let ghost ev = rename_entries_view(es@);
    let mut out: Vec<RenameEntry> = Vec::new();
    let mut rest = es;
    let mut i: usize = 0;
    let n = rest.len();
    assert(ev.take(0) =~= Seq::<RenameEntryView>::empty());
    assert(rename_entries_view(out@).map_values(current_key_of()) =~= Seq::<Seq<char>>::empty());
    while rest.len() > 0
        invariant
            n == ev.len(),
            i + rest@.len() == n,
            rename_entries_view(rest@) == ev.skip(i as int),
            rename_entries_view(out@) == sorted_renames(ev.take(i as int)),
            crate::nav_projection_recipe::ids_increasing(rename_entries_view(out@).map_values(current_key_of())),
        decreases rest.len(),
    {
        let ghost r0 = rest@;
        let x = rest.remove(0);
        proof {
            assert(rename_entries_view(r0)[0] == rename_entry_view(r0[0]));
            assert(rename_entry_view(x) == ev[i as int]) by {
                assert(ev.skip(i as int)[0] == ev[i as int]);
            }
            assert(rest@ =~= r0.drop_first());
            assert(rename_entries_view(rest@) =~= rename_entries_view(r0).drop_first());
            assert(rename_entries_view(rest@) =~= ev.skip(i + 1));
            assert(ev.take(i + 1).drop_last() =~= ev.take(i as int));
            assert(ev.take(i + 1).last() == ev[i as int]);
        }
        put_rename(&mut out, x);
        i = i + 1;
    }
    assert(ev.take(i as int) =~= ev);
    out
}

/// Reads the text of a rename map, with the same TOML subset as the
/// projection artifacts. Nothing here touches the file system.
pub fn parse_rename_map(text: &str) -> (r: Result<RenameMap, String>)
    ensures
        match rename_map_spec(text@) {
            Ok(v) => r matches Ok(m) && rename_map_view(m) == v,
            Err(m) => r matches Err(x) && x@ == m,
        },
{
    let raw = match parse_raw_with_array(text, "rename") {
        Ok(d) => d,
        Err(e) => {
            return Err(e.message());
        },
    };
    proof {
        reveal_strlit("rename");
    }
    if raw.reconstruction.is_some() || raw.measures.is_some() {
        return Err(
            string_from(&chars_of("o mapa de renomeação não tem seção de reconstrução nem de medidas")),
        );
    }
    let mut root_keys: Vec<&str> = Vec::new();
    root_keys.push("schema");
    assert(strs(root_keys@) =~= seq!["schema"@]);
    proof {
        reveal_strlit("");
        assert(""@ =~= Seq::<char>::empty());
    }
    match reject_unknown(&raw.root, &root_keys, "") {
        Err(f) => {
            return Err(failure_string(f));
        },
        Ok(()) => {},
    }
    let schema = match raw.root.get("schema") {
        Some(Scalar::Integer(n)) => *n,
        _ => {
            return Err(string_from(&chars_of("campo 'schema' ausente ou não inteiro")));
        },
    };
    if schema != RENAME_MAP_SCHEMA_V1 && schema != RENAME_MAP_SCHEMA_V2 {
        let mut v: Vec<char> = Vec::new();
        push_str_chars(&mut v, "schema ");
        push_decimal(&mut v, schema);
        push_str_chars(&mut v, " desconhecido para mapa de renomeação; este formato aceita 1 e 2");
        return Err(string_from(&v));
    }
    if raw.rules.len() == 0 {
        return Err(string_from(&chars_of("o mapa de renomeação precisa declarar ao menos uma entrada")));
    }
    let entries = build_renames(&raw.rules, schema)?;
    reject_ambiguity(&entries)?;
    reject_swaps(&entries)?;
    Ok(RenameMap { schema, entries: sort_renames(entries) })
}


/// `name=value;`, or `name=;` when absent.
pub open spec fn canonical_field(name: Seq<char>, v: Option<Seq<char>>) -> Seq<char> {
    match v {
        Some(t) => name + "="@ + t + ";"@,
        None => name + "=;"@,
    }
}

/// The canonical form of an entry, over every declared field.
pub open spec fn canonical_text(e: RenameEntryView) -> Seq<char> {
    "current_key="@ + e.current_key + ";"@ + canonical_field("historical_key"@, e.historical_key)
        + canonical_field("current_domain"@, e.current_domain) + canonical_field(
        "historical_domain"@,
        e.historical_domain,
    ) + canonical_field("current_layer"@, e.current_layer) + canonical_field(
        "historical_layer"@,
        e.historical_layer,
    ) + canonical_field("current_summary"@, e.current_summary) + canonical_field(
        "historical_summary"@,
        e.historical_summary,
    )
}

fn push_canonical_field(out: &mut Vec<char>, name: &str, v: &Option<String>)
    ensures
        final(out)@ == old(out)@ + canonical_field(name@, opt_view(*v)),
{
    let mut f: Vec<char> = Vec::new();
    push_str_chars(&mut f, name);
    assert(f@ =~= name@);
    match v {
        Some(t) => {
            push_str_chars(&mut f, "=");
            push_str_chars(&mut f, t.as_str());
            push_str_chars(&mut f, ";");
        },
        None => {
            push_str_chars(&mut f, "=;");
        },
    }
    crate::text::push_all(out, &f);
}

impl RenameEntry {
    /// The canonical form of the entry, from which the fingerprint of a map
    /// is computed.
    pub fn canonical(&self) -> (s: String)
        ensures
            s@ == canonical_text(rename_entry_view(*self)),
    {
        let mut v: Vec<char> = Vec::new();
        push_str_chars(&mut v, "current_key=");
        assert(v@ =~= "current_key="@);
        push_str_chars(&mut v, self.current_key.as_str());
        push_str_chars(&mut v, ";");
        push_canonical_field(&mut v, "historical_key", &self.historical_key);
        push_canonical_field(&mut v, "current_domain", &self.current_domain);
        push_canonical_field(&mut v, "historical_domain", &self.historical_domain);
        push_canonical_field(&mut v, "current_layer", &self.current_layer);
        push_canonical_field(&mut v, "historical_layer", &self.historical_layer);
        push_canonical_field(&mut v, "current_summary", &self.current_summary);
        push_canonical_field(&mut v, "historical_summary", &self.historical_summary);
        string_from(&v)
    }
}

} // verus!
