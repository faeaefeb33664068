//! Reading the versioned JSONL catalogue back into regions: one region
//! record per non-blank line, schema 1 only, every symbol, documentation and
//! test link re-validated, and the regions put back in catalogue order.
use crate::jsonl::{
    fault_msg, member_value, object_of, parse_object, value_int, value_str, value_str_array,
    JsonObject, ValueView,
};
use crate::nav::{
    parse_symbol, parse_symbol_doc, parse_symbol_identity, symbol_doc_ok, symbol_identity_spec,
    symbol_ok, CatalogError, CodeCatalog, CodeRegion, RegionSymbol, SymbolDocLink,
};
use crate::nav_catalog::{catalogue_order, insert_sorted, lemma_insert_at, rec_lt, region_lt};
use crate::nav_scan::{
    copy_text, doc_of, doc_view, docs_view, region_rec, region_recs, sym_view, symbol_of, syms_view,
    DocView, RegionRec, SymView,
};
use crate::text::{
    chars_of, decimal, lines, push_decimal, push_str_chars, rows, split_lines, str_eq, string_from,
    string_rows, trim,
};
use vstd::prelude::*;

verus! {

pub enum CatalogErrView {
    Missing { path: Seq<char> },
    Invalid { path: Seq<char>, line: int, msg: Seq<char> },
}

pub open spec fn catalog_err_view(e: CatalogError) -> CatalogErrView {
    match e {
        CatalogError::Missing { path } => CatalogErrView::Missing { path: path@ },
        CatalogError::Invalid { path, line, msg } => CatalogErrView::Invalid {
            path: path@,
            line: line as int,
            msg: msg@,
        },
    }
}

/// Two equal items.
pub open spec fn has_dup<T>(s: Seq<T>) -> bool {
    exists|i: int, j: int| 0 <= i < j < s.len() && s[i] == s[j]
}

/// A list member, or no list when the member is absent.
pub open spec fn opt_list_of(m: Seq<(Seq<char>, ValueView)>, k: Seq<char>) -> Result<Seq<Seq<char>>, Seq<char>> {
    match member_value(m, k) {
        None => Ok(Seq::empty()),
        Some(v) => match value_str_array(v) {
            Some(ts) => Ok(ts),
            None => Err("campo '"@ + k + "' deve ser lista de strings"@),
        },
    }
}

pub open spec fn req_str_of(m: Seq<(Seq<char>, ValueView)>, k: Seq<char>) -> Result<Seq<char>, Seq<char>> {
    match member_value(m, k) {
        Some(v) => match value_str(v) {
            Some(t) => Ok(t),
            None => Err("região sem campo '"@ + k + "'"@),
        },
        None => Err("região sem campo '"@ + k + "'"@),
    }
}

/// A non-negative integer member, as the `usize` it becomes.
pub open spec fn req_int_of(m: Seq<(Seq<char>, ValueView)>, k: Seq<char>) -> Result<int, Seq<char>> {
    match member_value(m, k) {
        Some(v) => match value_int(v) {
            Some(n) => if n >= 0 {
                Ok((n as usize) as int)
            } else {
                Err("região sem inteiro '"@ + k + "'"@)
            },
            None => Err("região sem inteiro '"@ + k + "'"@),
        },
        None => Err("região sem inteiro '"@ + k + "'"@),
    }
}

pub open spec fn opt_str_of(m: Seq<(Seq<char>, ValueView)>, k: Seq<char>) -> Option<Seq<char>> {
    match member_value(m, k) {
        Some(v) => value_str(v),
        None => None,
    }
}

pub open spec fn or_default(o: Option<Seq<char>>, d: Seq<char>) -> Seq<char> {
    match o {
        Some(t) => t,
        None => d,
    }
}

pub open spec fn all_symbols(vs: Seq<Seq<char>>) -> bool {
    forall|i: int| 0 <= i < vs.len() ==> symbol_ok(#[trigger] vs[i])
}

pub open spec fn all_docs(vs: Seq<Seq<char>>) -> bool {
    forall|i: int| 0 <= i < vs.len() ==> symbol_doc_ok(#[trigger] vs[i])
}

pub open spec fn all_identities(vs: Seq<Seq<char>>) -> bool {
    forall|i: int| 0 <= i < vs.len() ==> symbol_identity_spec(#[trigger] vs[i])
}

/// The region a record describes, or the message of the first thing wrong
/// with it.
pub open spec fn record_of(m: Seq<(Seq<char>, ValueView)>) -> Result<RegionRec, Seq<char>> {
    match opt_list_of(m, "symbols"@) {
        Err(e) => Err(e),
        Ok(sv) => if !all_symbols(sv) {
            Err("binding de símbolo inválido"@)
        } else {
            match opt_list_of(m, "symbol_docs"@) {
                Err(e) => Err(e),
                Ok(dv) => if !all_docs(dv) {
                    Err("vínculo documental de símbolo inválido"@)
                } else {
                    match opt_list_of(m, "related_symbols"@) {
                        Err(e) => Err(e),
                        Ok(rv) => if !all_identities(rv) {
                            Err("identidade relacionada inválida"@)
                        } else {
                            match opt_list_of(m, "test_for"@) {
                                Err(e) => Err(e),
                                Ok(tv) => if !all_identities(tv) {
                                    Err("identidade de teste inválida"@)
                                } else {
                                    let syms = sv.map_values(|v: Seq<char>| symbol_of(v));
                                    let docs = dv.map_values(|v: Seq<char>| doc_of(v));
                                    if has_dup(syms) || has_dup(docs) || has_dup(rv) || has_dup(tv) {
                                        Err("metadado de símbolo duplicado no registro de região"@)
                                    } else {
                                        record_fields(m, syms, docs, rv, tv)
                                    }
                                },
                            }
                        },
                    }
                },
            }
        },
    }
}

pub open spec fn record_fields(
    m: Seq<(Seq<char>, ValueView)>,
    syms: Seq<SymView>,
    docs: Seq<DocView>,
    rv: Seq<Seq<char>>,
    tv: Seq<Seq<char>>,
) -> Result<RegionRec, Seq<char>> {
    match req_str_of(m, "key"@) {
        Err(e) => Err(e),
        Ok(key) => match req_str_of(m, "file"@) {
            Err(e) => Err(e),
            Ok(file) => match req_int_of(m, "start_marker"@) {
                Err(e) => Err(e),
                Ok(sm) => match req_int_of(m, "end_marker"@) {
                    Err(e) => Err(e),
                    Ok(em) => Ok(
                        RegionRec {
                            key,
                            kind: or_default(opt_str_of(m, "kind"@), "region"@),
                            domain: opt_str_of(m, "domain"@),
                            layer: opt_str_of(m, "layer"@),
                            phase: match member_value(m, "phase"@) {
                                Some(v) => match value_int(v) {
                                    Some(n) => Some(n as u64),
                                    None => None,
                                },
                                None => None,
                            },
                            file,
                            start_marker: sm,
                            content_start: match req_int_of(m, "content_start"@) {
                                Ok(n) => n,
                                Err(_) => 0,
                            },
                            content_end: match req_int_of(m, "content_end"@) {
                                Ok(n) => n,
                                Err(_) => 0,
                            },
                            end_marker: em,
                            summary: or_default(opt_str_of(m, "summary"@), Seq::empty()),
                            hash: or_default(opt_str_of(m, "hash"@), Seq::empty()),
                            status: or_default(opt_str_of(m, "status"@), "active"@),
                            symbols: syms,
                            related_symbols: rv,
                            test_for: tv,
                            symbol_docs: docs,
                        },
                    ),
                },
            },
        },
    }
}

/// A signed integer in decimal.
pub open spec fn int_text(n: i64) -> Seq<char> {
    if n < 0 {
        "-"@ + decimal((-n) as nat)
    } else {
        decimal(n as nat)
    }
}

/// The schema a record declares (0 when it declares none).
pub open spec fn schema_of(m: Seq<(Seq<char>, ValueView)>) -> i64 {
    match member_value(m, "schema"@) {
        Some(v) => match value_int(v) {
            Some(n) => n,
            None => 0,
        },
        None => 0,
    }
}

/// The region of one non-blank catalogue line, or what is wrong with it.
#[verifier::opaque]
pub open spec fn line_record(t: Seq<char>) -> Result<RegionRec, Seq<char>> {
    match object_of(t) {
        Err(p) => Err(fault_msg(p)),
        Ok(m) => if schema_of(m) != 1 {
            Err("schema "@ + int_text(schema_of(m)) + " não suportado"@)
        } else {
            record_of(m)
        },
    }
}

/// The records of the lines from `i` on, blank lines skipped; the first
/// wrong line fails with its 1-based number.
pub open spec fn catalog_lines(ls: Seq<Seq<char>>, path: Seq<char>, i: int) -> Result<Seq<RegionRec>, CatalogErrView>
    decreases ls.len() - i,
{
    if i < 0 || i >= ls.len() {
        Ok(Seq::empty())
    } else if trim(ls[i]).len() == 0 {
        catalog_lines(ls, path, i + 1)
    } else {
        match line_record(trim(ls[i])) {
            Err(msg) => Err(CatalogErrView::Invalid { path, line: i + 1, msg }),
            Ok(r) => match catalog_lines(ls, path, i + 1) {
                Ok(rest) => Ok(seq![r] + rest),
                Err(e) => Err(e),
            },
        }
    }
}

/// The catalogue a text holds, in catalogue order.
pub open spec fn catalog_of(ls: Seq<Seq<char>>, path: Seq<char>) -> Result<Seq<RegionRec>, CatalogErrView> {
    match catalog_lines(ls, path, 0) {
        Ok(rs) => Ok(catalogue_order(rs)),
        Err(e) => Err(e),
    }
}

fn opt_list_exec(obj: &JsonObject, k: &str) -> (r: Result<Vec<String>, String>)
    ensures
        match opt_list_of(crate::jsonl::object_view(*obj), k@) {
            Ok(ts) => r matches Ok(v) && string_rows(v@) == ts,
            Err(e) => r matches Err(x) && x@ == e,
        },
{
    match obj.get(k) {
        None => {
            let v: Vec<String> = Vec::new();
            assert(string_rows(v@) =~= Seq::<Seq<char>>::empty());
            Ok(v)
        },
        Some(value) => match value.as_str_array() {
            Some(v) => Ok(v),
            None => {
                let mut m: Vec<char> = Vec::new();
                push_str_chars(&mut m, "campo '");
                push_str_chars(&mut m, k);
                push_str_chars(&mut m, "' deve ser lista de strings");
                Err(string_from(&m))
            },
        },
    }
}

fn req_str_exec(obj: &JsonObject, k: &str) -> (r: Result<String, String>)
    ensures
        match req_str_of(crate::jsonl::object_view(*obj), k@) {
            Ok(t) => r matches Ok(v) && v@ == t,
            Err(e) => r matches Err(x) && x@ == e,
        },
{
    match obj.get(k) {
        Some(value) => match value.as_str() {
            Some(t) => {
                return Ok(copy_text(t));
            },
            None => {},
        },
        None => {},
    }
    let mut m: Vec<char> = Vec::new();
    push_str_chars(&mut m, "região sem campo '");
    push_str_chars(&mut m, k);
    push_str_chars(&mut m, "'");
    Err(string_from(&m))
}

fn req_int_exec(obj: &JsonObject, k: &str) -> (r: Result<usize, String>)
    ensures
        match req_int_of(crate::jsonl::object_view(*obj), k@) {
            Ok(n) => r matches Ok(v) && v as int == n,
            Err(e) => r matches Err(x) && x@ == e,
        },
{
    match obj.get(k) {
        Some(value) => match value.as_int() {
            Some(n) => {
                if n >= 0 {
                    return Ok(n as usize);
                }
            },
            None => {},
        },
        None => {},
    }
    let mut m: Vec<char> = Vec::new();
    push_str_chars(&mut m, "região sem inteiro '");
    push_str_chars(&mut m, k);
    push_str_chars(&mut m, "'");
    Err(string_from(&m))
}

fn opt_str_exec(obj: &JsonObject, k: &str) -> (r: Option<String>)
    ensures
        crate::nav_scan::opt_text(r) == opt_str_of(crate::jsonl::object_view(*obj), k@),
{
    match obj.get(k) {
        Some(value) => match value.as_str() {
            Some(t) => Some(copy_text(t)),
            None => None,
        },
        None => None,
    }
}

fn str_or(o: Option<String>, d: &str) -> (r: String)
    ensures
        r@ == or_default(crate::nav_scan::opt_text(o), d@),
{
    match o {
        Some(t) => t,
        None => copy_text(d),
    }
}

fn parse_symbols(vs: &Vec<String>) -> (r: Option<Vec<RegionSymbol>>)
    ensures
        all_symbols(string_rows(vs@)) ==> (r matches Some(v) && syms_view(v@) == string_rows(vs@).map_values(
            |t: Seq<char>| symbol_of(t),
        )),
        !all_symbols(string_rows(vs@)) ==> r is None,
{
    let ghost sv = string_rows(vs@);
    let mut out: Vec<RegionSymbol> = Vec::new();
    let mut i: usize = 0;
    while i < vs.len()
        invariant
            i <= vs@.len(),
            sv == string_rows(vs@),
            out@.len() == i,
            forall|j: int| 0 <= j < i ==> symbol_ok(#[trigger] sv[j]),
            forall|j: int| 0 <= j < i ==> #[trigger] sym_view(out@[j]) == symbol_of(sv[j]),
        decreases vs.len() - i,
    {
        assert(sv[i as int] == vs@[i as int]@);
        match parse_symbol(vs[i].as_str()) {
            Some(sym) => {
                out.push(sym);
            },
            None => {
                return None;
            },
        }
        i = i + 1;
    }
    assert(syms_view(out@) =~= sv.map_values(|t: Seq<char>| symbol_of(t)));
    Some(out)
}

fn parse_docs(vs: &Vec<String>) -> (r: Option<Vec<SymbolDocLink>>)
    ensures
        all_docs(string_rows(vs@)) ==> (r matches Some(v) && docs_view(v@) == string_rows(vs@).map_values(
            |t: Seq<char>| doc_of(t),
        )),
        !all_docs(string_rows(vs@)) ==> r is None,
{
    let ghost sv = string_rows(vs@);
    let mut out: Vec<SymbolDocLink> = Vec::new();
    let mut i: usize = 0;
    while i < vs.len()
        invariant
            i <= vs@.len(),
            sv == string_rows(vs@),
            out@.len() == i,
            forall|j: int| 0 <= j < i ==> symbol_doc_ok(#[trigger] sv[j]),
            forall|j: int| 0 <= j < i ==> #[trigger] doc_view(out@[j]) == doc_of(sv[j]),
        decreases vs.len() - i,
    {
        assert(sv[i as int] == vs@[i as int]@);
        match parse_symbol_doc(vs[i].as_str()) {
            Some(d) => {
                out.push(d);
            },
            None => {
                return None;
            },
        }
        i = i + 1;
    }
    assert(docs_view(out@) =~= sv.map_values(|t: Seq<char>| doc_of(t)));
    Some(out)
}

fn check_identities(vs: &Vec<String>) -> (b: bool)
    ensures
        b == all_identities(string_rows(vs@)),
{
    let ghost sv = string_rows(vs@);
    let mut i: usize = 0;
    while i < vs.len()
        invariant
            i <= vs@.len(),
            sv == string_rows(vs@),
            forall|j: int| 0 <= j < i ==> symbol_identity_spec(#[trigger] sv[j]),
        decreases vs.len() - i,
    {
        assert(sv[i as int] == vs@[i as int]@);
        if parse_symbol_identity(vs[i].as_str()).is_none() {
            return false;
        }
        i = i + 1;
    }
    true
}

fn dup_texts(v: &Vec<String>) -> (b: bool)
    ensures
        b == has_dup(string_rows(v@)),
{
    let ghost s = string_rows(v@);
    let mut i: usize = 0;
    while i < v.len()
        invariant
            i <= v@.len(),
            s == string_rows(v@),
            forall|a: int, c: int| 0 <= a < c < i ==> s[a] != s[c],
        decreases v.len() - i,
    {
        let mut j: usize = 0;
        while j < i
            invariant
                j <= i < v@.len(),
                s == string_rows(v@),
                forall|a: int| 0 <= a < j ==> s[a] != s[i as int],
            decreases i - j,
        {
            if str_eq(v[j].as_str(), v[i].as_str()) {
                assert(s[j as int] == s[i as int]);
                return true;
            }
            j = j + 1;
        }
        i = i + 1;
    }
    false
}

fn dup_symbols(v: &Vec<RegionSymbol>) -> (b: bool)
    ensures
        b == has_dup(syms_view(v@)),
{
    let ghost s = syms_view(v@);
    let mut i: usize = 0;
    while i < v.len()
        invariant
            i <= v@.len(),
            s == syms_view(v@),
            forall|a: int, c: int| 0 <= a < c < i ==> s[a] != s[c],
        decreases v.len() - i,
    {
        let mut j: usize = 0;
        while j < i
            invariant
                j <= i < v@.len(),
                s == syms_view(v@),
                forall|a: int| 0 <= a < j ==> s[a] != s[i as int],
            decreases i - j,
        {
            if str_eq(v[j].identity.as_str(), v[i].identity.as_str()) && str_eq(v[j].name.as_str(), v[i].name.as_str())
                && v[j].kind == v[i].kind && v[j].role == v[i].role {
                assert(s[j as int] == s[i as int]);
                return true;
            }
            j = j + 1;
        }
        i = i + 1;
    }
    false
}

fn dup_docs(v: &Vec<SymbolDocLink>) -> (b: bool)
    ensures
        b == has_dup(docs_view(v@)),
{
    let ghost s = docs_view(v@);
    let mut i: usize = 0;
    while i < v.len()
        invariant
            i <= v@.len(),
            s == docs_view(v@),
            forall|a: int, c: int| 0 <= a < c < i ==> s[a] != s[c],
        decreases v.len() - i,
    {
        let mut j: usize = 0;
        while j < i
            invariant
                j <= i < v@.len(),
                s == docs_view(v@),
                forall|a: int| 0 <= a < j ==> s[a] != s[i as int],
            decreases i - j,
        {
            if str_eq(v[j].identity.as_str(), v[i].identity.as_str()) && str_eq(
                v[j].document.as_str(),
                v[i].document.as_str(),
            ) {
                assert(s[j as int] == s[i as int]);
                return true;
            }
            j = j + 1;
        }
        i = i + 1;
    }
    false
}

fn invalid_msg(t: &str) -> (s: String)
    ensures
        s@ == t@,
{
    copy_text(t)
}

/// The region of one catalogue record.
#[verifier::spinoff_prover]
fn parse_region_record(obj: &JsonObject) -> (r: Result<CodeRegion, String>)
    ensures
        match record_of(crate::jsonl::object_view(*obj)) {
            Ok(rec) => r matches Ok(x) && region_rec(x) == rec,
            Err(e) => r matches Err(x) && x@ == e,
        },
{
    let ghost m = crate::jsonl::object_view(*obj);
    let sl = match opt_list_exec(obj, "symbols") {
        Ok(v) => v,
        Err(e) => {
            return Err(e);
        },
    };
    let symbols = match parse_symbols(&sl) {
        Some(v) => v,
        None => {
            return Err(invalid_msg("binding de símbolo inválido"));
        },
    };
    let dl = match opt_list_exec(obj, "symbol_docs") {
        Ok(v) => v,
        Err(e) => {
            return Err(e);
        },
    };
    let symbol_docs = match parse_docs(&dl) {
        Some(v) => v,
        None => {
            return Err(invalid_msg("vínculo documental de símbolo inválido"));
        },
    };
    let related_symbols = match opt_list_exec(obj, "related_symbols") {
        Ok(v) => v,
        Err(e) => {
            return Err(e);
        },
    };
    if !check_identities(&related_symbols) {
        return Err(invalid_msg("identidade relacionada inválida"));
    }
    let test_for = match opt_list_exec(obj, "test_for") {
        Ok(v) => v,
        Err(e) => {
            return Err(e);
        },
    };
    if !check_identities(&test_for) {
        return Err(invalid_msg("identidade de teste inválida"));
    }
    if dup_symbols(&symbols) || dup_docs(&symbol_docs) || dup_texts(&related_symbols) || dup_texts(&test_for) {
        return Err(invalid_msg("metadado de símbolo duplicado no registro de região"));
    }
    let key = match req_str_exec(obj, "key") {
        Ok(v) => v,
        Err(e) => {
            return Err(e);
        },
    };
    let kind = str_or(opt_str_exec(obj, "kind"), "region");
    let domain = opt_str_exec(obj, "domain");
    let layer = opt_str_exec(obj, "layer");
    let phase = match obj.get("phase") {
        Some(v) => match v.as_int() {
            Some(n) => Some(n as u64),
            None => None,
        },
        None => None,
    };
    let file = match req_str_exec(obj, "file") {
        Ok(v) => v,
        Err(e) => {
            return Err(e);
        },
    };
    let start_marker = match req_int_exec(obj, "start_marker") {
        Ok(v) => v,
        Err(e) => {
            return Err(e);
        },
    };
    let content_start = match req_int_exec(obj, "content_start") {
        Ok(n) => n,
        Err(_) => 0,
    };
    let content_end = match req_int_exec(obj, "content_end") {
        Ok(n) => n,
        Err(_) => 0,
    };
    let end_marker = match req_int_exec(obj, "end_marker") {
        Ok(v) => v,
        Err(e) => {
            return Err(e);
        },
    };
    let summary = str_or(opt_str_exec(obj, "summary"), "");
    let hash = str_or(opt_str_exec(obj, "hash"), "");
    let status = str_or(opt_str_exec(obj, "status"), "active");
    let region = CodeRegion {
        key,
        kind,
        domain,
        layer,
        phase,
        file,
        start_marker,
        content_start,
        content_end,
        end_marker,
        summary,
        hash,
        status,
        symbols,
        related_symbols,
        test_for,
        symbol_docs,
    };
    proof {
        reveal_strlit("");
        let sv = string_rows(sl@);
        let dv = string_rows(dl@);
        assert(opt_list_of(m, "symbols"@) == Ok::<Seq<Seq<char>>, Seq<char>>(sv));
        assert(all_symbols(sv));
        assert(all_docs(dv));
        assert(syms_view(symbols@) == sv.map_values(|v: Seq<char>| symbol_of(v)));
        assert(!has_dup(sv.map_values(|v: Seq<char>| symbol_of(v))));
        assert(record_of(m) == record_fields(m, syms_view(symbols@), docs_view(symbol_docs@), string_rows(related_symbols@), string_rows(test_for@)));
        assert(summary@ == Seq::<char>::empty() || opt_str_of(m, "summary"@) is Some);
        assert(region_rec(region).phase == record_fields(m, syms_view(symbols@), docs_view(symbol_docs@), string_rows(related_symbols@), string_rows(test_for@))->Ok_0.phase);
        assert(region_rec(region).summary == record_fields(m, syms_view(symbols@), docs_view(symbol_docs@), string_rows(related_symbols@), string_rows(test_for@))->Ok_0.summary);
        assert(record_of(m) is Ok);
        let rec = record_of(m)->Ok_0;
        assert(region_rec(region).key == rec.key);
        assert(region_rec(region).kind == rec.kind);
        assert(region_rec(region).domain == rec.domain);
        assert(region_rec(region).layer == rec.layer);
        assert(region_rec(region).phase == rec.phase);
        assert(region_rec(region).file == rec.file);
        assert(region_rec(region).start_marker == rec.start_marker);
        assert(region_rec(region).content_start == rec.content_start);
        assert(region_rec(region).content_end == rec.content_end);
        assert(region_rec(region).end_marker == rec.end_marker);
        assert(region_rec(region).summary == rec.summary);
        assert(region_rec(region).hash == rec.hash);
        assert(region_rec(region).status == rec.status);
        assert(region_rec(region).symbols == rec.symbols);
        assert(region_rec(region).related_symbols == rec.related_symbols);
        assert(region_rec(region).test_for == rec.test_for);
        assert(region_rec(region).symbol_docs == rec.symbol_docs);
        assert(region_rec(region) == record_of(m)->Ok_0);
    }
    Ok(region)
}

fn sort_catalogue(v: Vec<CodeRegion>) -> (r: Vec<CodeRegion>)
    ensures
        region_recs(r@) == catalogue_order(region_recs(v@)),
{
    let ghost all = region_recs(v@);
    let mut rest = v;
    let mut sorted: Vec<CodeRegion> = Vec::new();
    let ghost mut i: int = 0;
    assert(region_recs(rest@) =~= all.skip(0));
    assert(region_recs(sorted@) =~= catalogue_order(all.take(0)));
    while rest.len() > 0
        invariant
            0 <= i <= all.len(),
            rest@.len() == all.len() - i,
            region_recs(rest@) == all.skip(i),
            region_recs(sorted@) == catalogue_order(all.take(i)),
        decreases rest.len(),
    {
        let ghost rv = region_recs(rest@);
        let x = rest.remove(0);
        assert(region_rec(x) == rv[0]);
        assert(region_recs(rest@) =~= rv.drop_first());
        assert(rv.drop_first() =~= all.skip(i + 1));
        assert(all.take(i + 1).drop_last() =~= all.take(i));
        assert(all.take(i + 1).last() == region_rec(x));
        let ghost s = region_recs(sorted@);
        let mut k = sorted.len();
        while k > 0 && rec_lt(&x, &sorted[k - 1])
            invariant
                k <= sorted@.len(),
                s == region_recs(sorted@),
                forall|j: int| k <= j < s.len() ==> region_lt(region_rec(x), #[trigger] s[j]),
            decreases k,
        {
            k = k - 1;
        }
        proof {
            lemma_insert_at(s, region_rec(x), k as int);
        }
        let ghost xv = region_rec(x);
        sorted.insert(k, x);
        assert(region_recs(sorted@) =~= s.take(k as int).push(xv) + s.skip(k as int));
        proof {
            i = i + 1;
        }
    }
    assert(all.take(i) =~= all);
    sorted
}

fn int_text_exec(n: i64) -> (s: String)
    ensures
        s@ == int_text(n),
{
    let mut out: Vec<char> = Vec::new();
    if n < 0 {
        push_str_chars(&mut out, "-");
        let m: i128 = -(n as i128);
        push_decimal(&mut out, m as u64);
    } else {
        push_decimal(&mut out, n as u64);
    }
    string_from(&out)
}

fn line_record_exec(t: &str) -> (r: Result<CodeRegion, String>)
    ensures
        match line_record(t@) {
            Ok(rec) => r matches Ok(x) && region_rec(x) == rec,
            Err(e) => r matches Err(x) && x@ == e,
        },
{
    proof {
        reveal(line_record);
    }
    let obj = match parse_object(t) {
        Ok(o) => o,
        Err(e) => {
            return Err(e.msg);
        },
    };
    let schema: i64 = match obj.get("schema") {
        Some(v) => match v.as_int() {
            Some(n) => n,
            None => 0,
        },
        None => 0,
    };
    if schema != 1 {
        let mut m: Vec<char> = Vec::new();
        push_str_chars(&mut m, "schema ");
        let st = int_text_exec(schema);
        push_str_chars(&mut m, st.as_str());
        push_str_chars(&mut m, " não suportado");
        return Err(string_from(&m));
    }
    parse_region_record(&obj)
}

impl CodeCatalog {
    /// Rebuilds the catalogue from its JSONL text: every non-blank line is a
    /// schema-1 region record, re-validated; the first wrong line fails with
    /// its number; the regions come back in catalogue order.
    #[verifier::spinoff_prover]
    pub fn parse(text: &str, path: &str) -> (r: Result<CodeCatalog, CatalogError>)
        ensures
            match catalog_of(lines(text@), path@) {
                Ok(rs) => r matches Ok(c) && region_recs(c.regions@) == rs,
                Err(e) => r matches Err(x) && catalog_err_view(x) == e,
            },
    {
        let chars = chars_of(text);
        let ls = split_lines(&chars);
        let ghost all = lines(text@);
        assert(rows(ls@) =~= all);
        let mut out: Vec<CodeRegion> = Vec::new();
        let mut i: usize = 0;
        assert(region_recs(out@) + Seq::<RegionRec>::empty() =~= Seq::<RegionRec>::empty());
        while i < ls.len()
            invariant
                i <= ls@.len(),
                all == rows(ls@),
                all == lines(text@),
                catalog_lines(all, path@, 0) == (match catalog_lines(all, path@, i as int) {
                    Ok(rest) => Ok(region_recs(out@) + rest),
                    Err(e) => Err(e),
                }),
            decreases ls.len() - i,
        {
            assert(all[i as int] == ls@[i as int]@);
            let t = crate::text::trimmed(&ls[i], 0, ls[i].len());
            assert(ls@[i as int]@.subrange(0, ls@[i as int]@.len() as int) =~= ls@[i as int]@);
            if t.len() > 0 {
                let line = string_from(&t);
                match line_record_exec(line.as_str()) {
                    Err(msg) => {
                        assert(t@ == trim(all[i as int]));
                        assert(catalog_lines(all, path@, i as int) == Err::<Seq<RegionRec>, CatalogErrView>(
                            CatalogErrView::Invalid { path: path@, line: i + 1, msg: msg@ },
                        ));
                        let e = CatalogError::Invalid { path: copy_text(path), line: i + 1, msg };
                        assert(catalog_err_view(e) == CatalogErrView::Invalid { path: path@, line: i + 1, msg: msg@ });
                        assert(catalog_lines(all, path@, 0) == Err::<Seq<RegionRec>, CatalogErrView>(catalog_err_view(e)));
                        assert(catalog_of(lines(text@), path@) == Err::<Seq<RegionRec>, CatalogErrView>(catalog_err_view(e)));
                        return Err(e);
                    },
                    Ok(region) => {
                        let ghost before = region_recs(out@);
                        out.push(region);
                        assert(region_recs(out@) =~= before.push(region_rec(region)));
                        proof {
                            match catalog_lines(all, path@, i + 1) {
                                Ok(rest) => {
                                    assert(before + (seq![region_rec(region)] + rest) =~= region_recs(out@) + rest);
                                },
                                Err(_) => {},
                            }
                        }
                    },
                }
            }
            i = i + 1;
        }
        let regions = sort_catalogue(out);
        Ok(CodeCatalog { regions })
    }
}

/// The stable text of a catalogue failure.
pub open spec fn catalog_error_text(e: CatalogErrView) -> Seq<char> {
    match e {
        CatalogErrView::Missing { path } => "E-NAV-CATALOG\nCatálogo de código ausente: '"@ + path
            + "'. Rode `pink nav sincronizar`."@,
        CatalogErrView::Invalid { path, line, msg } => "E-NAV-CATALOG\nCatálogo de código inválido em '"@ + path
            + "' (linha "@ + decimal(line as nat) + "): "@ + msg + ". Rode `pink nav sincronizar`."@,
    }
}

impl CatalogError {
    /// The stable text of the failure, as the command line shows it.
    pub fn message(&self) -> (s: String)
        ensures
            s@ == catalog_error_text(catalog_err_view(*self)),
    {
        let mut o: Vec<char> = Vec::new();
        match self {
            CatalogError::Missing { path } => {
                push_str_chars(&mut o, "E-NAV-CATALOG\nCatálogo de código ausente: '");
                push_str_chars(&mut o, path.as_str());
                push_str_chars(&mut o, "'. Rode `pink nav sincronizar`.");
            },
            CatalogError::Invalid { path, line, msg } => {
                push_str_chars(&mut o, "E-NAV-CATALOG\nCatálogo de código inválido em '");
                push_str_chars(&mut o, path.as_str());
                push_str_chars(&mut o, "' (linha ");
                push_decimal(&mut o, *line as u64);
                push_str_chars(&mut o, "): ");
                push_str_chars(&mut o, msg.as_str());
                push_str_chars(&mut o, ". Rode `pink nav sincronizar`.");
            },
        }
        proof {
            assert(o@ =~= catalog_error_text(catalog_err_view(*self)));
        }
        string_from(&o)
    }
}

} // verus!
