//! The catalogue reads back what it writes: the JSON reader of the
//! catalogue lines inverts the JSON writer of the regions, and reading the
//! whole JSONL text gives the regions back in catalogue order.
use crate::jsonl::{
    array_rest, digits_end, digits_val, hex4_at, hex_val, is_digit, member_at, member_value,
    members_rest, number_at, object_of, scalar_at, simple_escape, skip_json_ws, string_at,
    string_rest, value_at, ScalarView, ValueView,
};
use crate::nav_projection_snapshot::report::{json_escape_char, json_escaped, json_quoted};
use crate::nav_catalog::{doc_text, int_field, list_field, opt_field, quoted_list, region_json, sym_text, text_field};
use crate::nav::{
    bar, binding_parts, kind_of, kind_str, role_of, role_str, symbol_doc_ok, symbol_identity_spec, SymbolKind, SymbolRole,
    symbol_name_spec, symbol_ok, valid_key_spec,
};
use crate::nav_catalog_read::{
    all_docs, all_identities, all_symbols, has_dup, opt_list_of, record_fields, record_of, schema_of,
};
use crate::jsonl::value_str_array;
use crate::nav_catalog::{catalogue_order, insert_sorted, jsonl_of, lines_of, region_lt};
use crate::nav_catalog_read::{catalog_lines, catalog_of, line_record, CatalogErrView};
use crate::nav_projection_snapshot::report::{lemma_concat_single, lemma_decimal_single, lemma_quoted_single, single_line};
use crate::text::{lines, lines_from, next_newline, strip_cr, trim_end, trim_start};
use crate::nav_scan::{doc_of, symbol_of, DocView, RegionRec, SymView};
use crate::nav_scan::{
    body_line, closed_rec, finished, lemma_line_effect_ok, line_effect, meta_applied, new_open, next_marker_spec,
    open_ok, scan_lines, scanned, stack_ok, IndexView, OpenView, ScanView,
};
use crate::nav::{ascii_alnum, key_alnum, key_sep, parse_marker_spec, parse_meta_spec, path_sep, MarkerDialect, END, START};
use crate::nav_scan::law_scanned_regions_well_placed;
use crate::nav_scan::DialectState;
use crate::text::{is_ws, lemma_next_occurrence};
use crate::text::{next_occurrence, occurs_at, split, split_from, trim};
use crate::text::{decimal, hex_fixed, hex_lower};
use vstd::prelude::*;

verus! {

proof fn lemma_escaped_front(t: Seq<char>)
    requires
        t.len() > 0,
    ensures
        json_escaped(t) == json_escape_char(t[0]) + json_escaped(t.drop_first()),
    decreases t.len(),
{
    if t.len() == 1 {
        assert(t.drop_last() =~= Seq::<char>::empty());
        assert(t.drop_first() =~= Seq::<char>::empty());
        assert(json_escaped(t.drop_first()) == Seq::<char>::empty());
        assert(json_escaped(t) =~= json_escape_char(t[0]) + json_escaped(t.drop_first()));
    } else {
        lemma_escaped_front(t.drop_last());
        assert(t.drop_last().drop_first() =~= t.drop_first().drop_last());
        assert(t.drop_first().last() == t.last());
        assert(json_escaped(t) =~= json_escape_char(t[0]) + json_escaped(t.drop_first()));
    }
}

proof fn lemma_hex_digit(d: nat)
    requires
        d < 16,
    ensures
        hex_val(hex_lower(d)) == d,
{
}

/// A text written as a JSON string is read back as itself.
pub proof fn lemma_string_rest(s: Seq<char>, p: int, t: Seq<char>, acc: Seq<char>)
    requires
        0 <= p,
        p + json_escaped(t).len() < s.len(),
        s.subrange(p, p + json_escaped(t).len()) == json_escaped(t),
        s[p + json_escaped(t).len()] == '"',
    ensures
        string_rest(s, p, acc) == Ok::<(Seq<char>, int), int>((acc + t, p + json_escaped(t).len() + 1)),
    decreases t.len(),
{
    if t.len() == 0 {
        assert(acc + t =~= acc);
    } else {
        lemma_escaped_front(t);
        let c = t[0];
        let e = json_escape_char(c);
        let r = t.drop_first();
        assert(json_escaped(t).len() == e.len() + json_escaped(r).len());
        assert forall|k: int| 0 <= k < e.len() implies s[p + k] == e[k] by {
            assert(s.subrange(p, p + json_escaped(t).len())[k] == json_escaped(t)[k]);
        }
        let q = p + e.len();
        assert(s.subrange(q, q + json_escaped(r).len()) =~= json_escaped(r)) by {
            assert forall|k: int| 0 <= k < json_escaped(r).len() implies s.subrange(q, q + json_escaped(r).len())[k]
                == json_escaped(r)[k] by {
                assert(s.subrange(p, p + json_escaped(t).len())[e.len() + k] == json_escaped(t)[e.len() + k]);
            }
        }
        lemma_string_rest(s, q, r, acc.push(c));
        assert(acc.push(c) + r =~= acc + t);
        if c == '"' || c == '\\' || c == '\n' || c == '\r' || c == '\t' {
            assert(e.len() == 2);
            assert(s[p] == e[0] && s[p + 1] == e[1]);
        } else if (c as u32) < 0x20 {
            let n = (c as u32) as nat;
            assert(e == seq!['\\', 'u'] + hex_fixed(n, 4));
            assert(n < 32);
            lemma_hex_digit(n % 16);
            lemma_hex_digit(n / 16);
            lemma_hex_digit(0);
            assert(hex_fixed(n, 4) =~= seq!['0', '0', hex_lower(n / 16), hex_lower(n % 16)]) by {
                reveal_with_fuel(hex_fixed, 5);
                assert(n / 16 / 16 == 0);
                assert(n / 16 / 16 / 16 == 0);
            }
            assert(e =~= seq!['\\', 'u', '0', '0', hex_lower(n / 16), hex_lower(n % 16)]);
            assert(s[p] == e[0] && s[p + 1] == e[1] && s[p + 2] == e[2] && s[p + 3] == e[3] && s[p + 4] == e[4] && s[p + 5] == e[5]);
            assert((n / 16) * 16 + n % 16 == n);
            assert(hex4_at(s, p + 2) == Some(n as int));
            vstd::utf8::char_u32_cast(c, c as u32);
        } else {
            assert(e == seq![c]);
            assert(s[p] == e[0]);
        }
    }
}

/// `s` holds `t` from position `p`.
pub open spec fn holds_at(s: Seq<char>, p: int, t: Seq<char>) -> bool {
    0 <= p && p + t.len() <= s.len() && s.subrange(p, p + t.len()) == t
}

proof fn lemma_holds_split(s: Seq<char>, p: int, a: Seq<char>, b: Seq<char>)
    requires
        holds_at(s, p, a + b),
    ensures
        holds_at(s, p, a),
        holds_at(s, p + a.len(), b),
{
    let w = s.subrange(p, p + (a + b).len());
    assert forall|k: int| 0 <= k < a.len() implies s.subrange(p, p + a.len())[k] == a[k] by {
        assert(w[k] == (a + b)[k]);
    }
    assert(s.subrange(p, p + a.len()) =~= a);
    assert forall|k: int| 0 <= k < b.len() implies s.subrange(p + a.len(), p + a.len() + b.len())[k] == b[k] by {
        assert(w[a.len() + k] == (a + b)[a.len() + k]);
    }
    assert(s.subrange(p + a.len(), p + a.len() + b.len()) =~= b);
}

proof fn lemma_holds_char(s: Seq<char>, p: int, a: Seq<char>, k: int)
    requires
        holds_at(s, p, a),
        0 <= k < a.len(),
    ensures
        s[p + k] == a[k],
{
    assert(s.subrange(p, p + a.len())[k] == a[k]);
}

pub proof fn lemma_string_at(s: Seq<char>, p: int, t: Seq<char>)
    requires
        holds_at(s, p, json_quoted(t)),
    ensures
        string_at(s, p) == Ok::<(Seq<char>, int), int>((t, p + json_quoted(t).len())),
{
    let q = json_quoted(t);
    lemma_holds_split(s, p, seq!['"'] + json_escaped(t), seq!['"']);
    lemma_holds_split(s, p, seq!['"'], json_escaped(t));
    lemma_holds_char(s, p, seq!['"'], 0);
    lemma_holds_char(s, p + 1 + json_escaped(t).len(), seq!['"'], 0);
    lemma_string_rest(s, p + 1, t, Seq::empty());
    assert(Seq::<char>::empty() + t =~= t);
}

proof fn lemma_decimal_digits(n: nat)
    ensures
        forall|k: int| 0 <= k < decimal(n).len() ==> is_digit(#[trigger] decimal(n)[k]),
        decimal(n).len() >= 1,
        decimal(n).len() > 1 ==> decimal(n)[0] != '0',
        n >= 10 ==> decimal(n).len() > 1,
    decreases n,
{
    if n >= 10 {
        lemma_decimal_digits(n / 10);
        assert(decimal(n) == decimal(n / 10).push(hex_lower(n % 10)));
        assert(decimal(n)[0] == decimal(n / 10)[0]);
        if n / 10 < 10 {
            assert(decimal(n / 10) == seq![hex_lower(n / 10)]);
            assert(n / 10 >= 1);
            assert(hex_lower(n / 10) != '0');
        }
    }
}

proof fn lemma_digits_end(s: Seq<char>, i: int, e: int)
    requires
        0 <= i <= e <= s.len(),
        forall|k: int| i <= k < e ==> is_digit(#[trigger] s[k]),
        e < s.len() ==> !is_digit(s[e]),
    ensures
        digits_end(s, i) == e,
    decreases e - i,
{
    if i < e {
        lemma_digits_end(s, i + 1, e);
    }
}

proof fn lemma_digits_val(s: Seq<char>, p: int, n: nat)
    requires
        holds_at(s, p, decimal(n)),
    ensures
        digits_val(s, p, p + decimal(n).len()) == n,
    decreases n,
{
    let d = decimal(n);
    if n < 10 {
        lemma_holds_char(s, p, d, 0);
        assert(digits_val(s, p, p) == 0);
    } else {
        let h = decimal(n / 10);
        assert(d == h + seq![hex_lower(n % 10)]);
        lemma_holds_split(s, p, h, seq![hex_lower(n % 10)]);
        lemma_digits_val(s, p, n / 10);
        lemma_holds_char(s, p + h.len(), seq![hex_lower(n % 10)], 0);
        assert((n / 10) * 10 + n % 10 == n);
    }
}

/// A natural number written in decimal, followed by a character that
/// cannot continue it, is read back as itself.
pub proof fn lemma_number_at(s: Seq<char>, p: int, n: nat)
    requires
        holds_at(s, p, decimal(n)),
        p + decimal(n).len() < s.len(),
        s[p + decimal(n).len()] == ',' || s[p + decimal(n).len()] == '}' || s[p + decimal(n).len()] == ']',
        n <= i64::MAX,
    ensures
        number_at(s, p) == Ok::<(i64, int), int>((n as i64, p + decimal(n).len())),
{
    let d = decimal(n);
    lemma_decimal_digits(n);
    lemma_holds_char(s, p, d, 0);
    assert forall|k: int| p <= k < p + d.len() implies is_digit(#[trigger] s[k]) by {
        lemma_holds_char(s, p, d, k - p);
    }
    lemma_digits_end(s, p, p + d.len());
    lemma_digits_val(s, p, n);
}

/// The texts of a list after its first one, each preceded by a comma.
pub open spec fn list_rest(ts: Seq<Seq<char>>) -> Seq<char>
    decreases ts.len(),
{
    if ts.len() == 0 {
        Seq::empty()
    } else {
        ","@ + json_quoted(ts[0]) + list_rest(ts.drop_first())
    }
}

proof fn lemma_list_rest_push(ts: Seq<Seq<char>>, x: Seq<char>)
    ensures
        list_rest(ts.push(x)) == list_rest(ts) + ","@ + json_quoted(x),
    decreases ts.len(),
{
    if ts.len() == 0 {
        assert(ts.push(x).drop_first() =~= Seq::<Seq<char>>::empty());
        assert(ts.push(x)[0] == x);
        assert(list_rest(ts.push(x).drop_first()) == Seq::<char>::empty());
        assert(list_rest(ts) == Seq::<char>::empty());
        assert(list_rest(ts.push(x)) =~= list_rest(ts) + ","@ + json_quoted(x));
    } else {
        lemma_list_rest_push(ts.drop_first(), x);
        assert(ts.push(x).drop_first() =~= ts.drop_first().push(x));
        assert(list_rest(ts.push(x)) =~= list_rest(ts) + ","@ + json_quoted(x));
    }
}

proof fn lemma_quoted_list_front(ts: Seq<Seq<char>>)
    requires
        ts.len() > 0,
    ensures
        quoted_list(ts) == json_quoted(ts[0]) + list_rest(ts.drop_first()),
    decreases ts.len(),
{
    if ts.len() == 1 {
        assert(ts.drop_first() =~= Seq::<Seq<char>>::empty());
        assert(quoted_list(ts) =~= json_quoted(ts[0]) + list_rest(ts.drop_first()));
    } else {
        lemma_quoted_list_front(ts.drop_last());
        lemma_list_rest_push(ts.drop_last().drop_first(), ts.last());
        assert(ts.drop_last().drop_first().push(ts.last()) =~= ts.drop_first());
        assert(quoted_list(ts) =~= json_quoted(ts[0]) + list_rest(ts.drop_first()));
    }
}

pub open spec fn str_items(ts: Seq<Seq<char>>) -> Seq<ScalarView> {
    ts.map_values(|t: Seq<char>| ScalarView::Str(t))
}

proof fn lemma_array_rest(s: Seq<char>, i: int, ts: Seq<Seq<char>>, acc: Seq<ScalarView>)
    requires
        acc.len() > 0,
        holds_at(s, i, list_rest(ts) + "]"@),
    ensures
        array_rest(s, i, acc) == Ok::<(Seq<ScalarView>, int), int>(
            (acc + str_items(ts), i + list_rest(ts).len() + 1),
        ),
    decreases ts.len(),
{
    reveal_strlit(",");
    reveal_strlit("]");
    if ts.len() == 0 {
        assert(list_rest(ts) + "]"@ =~= seq![']']);
        lemma_holds_char(s, i, list_rest(ts) + "]"@, 0);
        assert(acc + str_items(ts) =~= acc);
    } else {
        let q = json_quoted(ts[0]);
        let r = list_rest(ts.drop_first());
        assert(list_rest(ts) + "]"@ =~= ","@ + (q + (r + "]"@)));
        lemma_holds_split(s, i, ","@, q + (r + "]"@));
        lemma_holds_split(s, i + 1, q, r + "]"@);
        lemma_holds_char(s, i, ","@, 0);
        lemma_holds_char(s, i + 1, q, 0);
        lemma_string_at(s, i + 1, ts[0]);
        lemma_array_rest(s, i + 1 + q.len(), ts.drop_first(), acc.push(ScalarView::Str(ts[0])));
        assert(acc.push(ScalarView::Str(ts[0])) + str_items(ts.drop_first()) =~= acc + str_items(ts));
    }
}

/// A non-empty list of texts written as a JSON array is read back.
pub proof fn lemma_array_value(s: Seq<char>, p: int, ts: Seq<Seq<char>>)
    requires
        ts.len() > 0,
        holds_at(s, p, "["@ + quoted_list(ts) + "]"@),
    ensures
        value_at(s, p) == Ok::<(ValueView, int), int>(
            (ValueView::Array(str_items(ts)), p + ("["@ + quoted_list(ts) + "]"@).len()),
        ),
{
    reveal_strlit("[");
    reveal_strlit("]");
    lemma_quoted_list_front(ts);
    let q = json_quoted(ts[0]);
    let r = list_rest(ts.drop_first());
    assert("["@ + quoted_list(ts) + "]"@ =~= "["@ + (q + (r + "]"@)));
    lemma_holds_split(s, p, "["@, q + (r + "]"@));
    lemma_holds_split(s, p + 1, q, r + "]"@);
    lemma_holds_char(s, p, "["@, 0);
    lemma_holds_char(s, p + 1, q, 0);
    lemma_string_at(s, p + 1, ts[0]);
    lemma_array_rest(s, p + 1 + q.len(), ts.drop_first(), seq![ScalarView::Str(ts[0])]);
    assert(seq![ScalarView::Str(ts[0])] + str_items(ts.drop_first()) =~= str_items(ts));
}

/// A member name that JSON writes as it is.
pub open spec fn plain(t: Seq<char>) -> bool {
    forall|k: int| 0 <= k < t.len() ==> (#[trigger] t[k]) != '"' && t[k] != '\\' && (t[k] as u32) >= 0x20
}

proof fn lemma_plain_escaped(t: Seq<char>)
    requires
        plain(t),
    ensures
        json_escaped(t) == t,
    decreases t.len(),
{
    if t.len() > 0 {
        assert forall|k: int| 0 <= k < t.drop_last().len() implies (#[trigger] t.drop_last()[k]) != '"' && t.drop_last()[k]
            != '\\' && (t.drop_last()[k] as u32) >= 0x20 by {
            assert(t.drop_last()[k] == t[k]);
        }
        lemma_plain_escaped(t.drop_last());
        let c = t.last();
        assert(c != '"' && c != '\\' && (c as u32) >= 0x20);
        assert(json_escape_char(c) == seq![c]);
        assert(json_escaped(t) =~= t);
    }
}

/// One member of a catalogue line.
pub enum JField {
    Text(Seq<char>, Seq<char>),
    Int(Seq<char>, int),
    List(Seq<char>, Seq<Seq<char>>),
}

pub open spec fn jf_name(f: JField) -> Seq<char> {
    match f {
        JField::Text(n, _) => n,
        JField::Int(n, _) => n,
        JField::List(n, _) => n,
    }
}

pub open spec fn jf_text(f: JField) -> Seq<char> {
    match f {
        JField::Text(n, v) => text_field(n, v),
        JField::Int(n, i) => int_field(n, i),
        JField::List(n, vs) => list_field(n, vs),
    }
}

pub open spec fn jf_value_text(f: JField) -> Seq<char> {
    match f {
        JField::Text(_, v) => json_quoted(v),
        JField::Int(_, i) => decimal(i as nat),
        JField::List(_, vs) => "["@ + quoted_list(vs) + "]"@,
    }
}

pub open spec fn jf_value(f: JField) -> ValueView {
    match f {
        JField::Text(_, v) => ValueView::Scalar(ScalarView::Str(v)),
        JField::Int(_, i) => ValueView::Scalar(ScalarView::Int(i as i64)),
        JField::List(_, vs) => ValueView::Array(str_items(vs)),
    }
}

pub open spec fn jf_ok(f: JField) -> bool {
    &&& plain(jf_name(f))
    &&& (f matches JField::Int(_, i) ==> 0 <= i <= i64::MAX)
    &&& (f matches JField::List(_, vs) ==> vs.len() > 0)
}

pub open spec fn fields_text(fs: Seq<JField>) -> Seq<char>
    decreases fs.len(),
{
    if fs.len() == 0 {
        Seq::empty()
    } else {
        jf_text(fs[0]) + fields_text(fs.drop_first())
    }
}

pub open spec fn pairs(fs: Seq<JField>) -> Seq<(Seq<char>, ValueView)> {
    fs.map_values(|f: JField| (jf_name(f), jf_value(f)))
}

proof fn lemma_jf_shape(f: JField)
    requires
        jf_ok(f),
    ensures
        jf_text(f) == ","@ + json_quoted(jf_name(f)) + (":"@ + jf_value_text(f)),
{
    reveal_strlit(",\"");
    reveal_strlit("\":");
    reveal_strlit("\":[");
    reveal_strlit(",");
    reveal_strlit(":");
    reveal_strlit("[");
    lemma_plain_escaped(jf_name(f));
    assert(jf_text(f) =~= ","@ + json_quoted(jf_name(f)) + (":"@ + jf_value_text(f)));
}

proof fn lemma_value(s: Seq<char>, p: int, f: JField)
    requires
        jf_ok(f),
        holds_at(s, p, jf_value_text(f)),
        p + jf_value_text(f).len() < s.len(),
        s[p + jf_value_text(f).len()] == ',' || s[p + jf_value_text(f).len()] == '}',
    ensures
        value_at(s, p) == Ok::<(ValueView, int), int>((jf_value(f), p + jf_value_text(f).len())),
{
    match f {
        JField::Text(_, v) => {
            lemma_holds_char(s, p, json_quoted(v), 0);
            lemma_string_at(s, p, v);
        },
        JField::Int(_, i) => {
            lemma_decimal_digits(i as nat);
            lemma_holds_char(s, p, decimal(i as nat), 0);
            lemma_number_at(s, p, i as nat);
        },
        JField::List(_, vs) => {
            lemma_array_value(s, p, vs);
        },
    }
}

pub open spec fn member_text(f: JField) -> Seq<char> {
    json_quoted(jf_name(f)) + (":"@ + jf_value_text(f))
}

proof fn lemma_member(s: Seq<char>, p: int, f: JField)
    requires
        jf_ok(f),
        holds_at(s, p, member_text(f)),
        p + member_text(f).len() < s.len(),
        s[p + member_text(f).len()] == ',' || s[p + member_text(f).len()] == '}',
    ensures
        member_at(s, p) == Ok::<((Seq<char>, ValueView), int), int>(
            ((jf_name(f), jf_value(f)), p + member_text(f).len()),
        ),
{
    reveal_strlit(":");
    let q = json_quoted(jf_name(f));
    let vt = jf_value_text(f);
    lemma_holds_split(s, p, q, ":"@ + vt);
    lemma_string_at(s, p, jf_name(f));
    lemma_holds_split(s, p + q.len(), ":"@, vt);
    lemma_holds_char(s, p + q.len(), ":"@, 0);
    lemma_value(s, p + 1 + q.len(), f);
    match f {
        JField::Text(_, v) => lemma_holds_char(s, p + 1 + q.len(), json_quoted(v), 0),
        JField::Int(_, n) => {
            lemma_decimal_digits(n as nat);
            lemma_holds_char(s, p + 1 + q.len(), decimal(n as nat), 0);
        },
        JField::List(_, vs) => {
            reveal_strlit("[");
            lemma_holds_char(s, p + 1 + q.len(), "["@ + quoted_list(vs) + "]"@, 0);
        },
    }
}

pub open spec fn names_fresh(fs: Seq<JField>, acc: Seq<(Seq<char>, ValueView)>) -> bool {
    &&& forall|a: int, b: int| 0 <= a < b < fs.len() ==> jf_name(#[trigger] fs[a]) != jf_name(#[trigger] fs[b])
    &&& forall|a: int, b: int| 0 <= a < fs.len() && 0 <= b < acc.len() ==> jf_name(#[trigger] fs[a]) != (#[trigger] acc[b]).0
}

#[verifier::spinoff_prover]
#[verifier::rlimit(60)]
pub proof fn lemma_members(s: Seq<char>, i: int, fs: Seq<JField>, acc: Seq<(Seq<char>, ValueView)>)
    requires
        acc.len() > 0,
        forall|k: int| 0 <= k < fs.len() ==> jf_ok(#[trigger] fs[k]),
        names_fresh(fs, acc),
        holds_at(s, i, fields_text(fs) + "}"@),
    ensures
        members_rest(s, i, acc) == Ok::<(Seq<(Seq<char>, ValueView)>, int), int>(
            (acc + pairs(fs), i + fields_text(fs).len() + 1),
        ),
    decreases fs.len(),
{
    reveal_strlit("}");
    reveal_strlit(",");
    if fs.len() == 0 {
        assert(fields_text(fs) + "}"@ =~= seq!['}']);
        lemma_holds_char(s, i, fields_text(fs) + "}"@, 0);
        assert(acc + pairs(fs) =~= acc);
    } else {
        let f = fs[0];
        let rest = fs.drop_first();
        assert(jf_ok(f));
        lemma_jf_shape(f);
        assert(fields_text(fs) + "}"@ =~= jf_text(f) + (fields_text(rest) + "}"@));
        lemma_holds_split(s, i, jf_text(f), fields_text(rest) + "}"@);
        let e = i + jf_text(f).len();
        if rest.len() > 0 {
            assert(jf_ok(rest[0]));
            lemma_jf_shape(rest[0]);
            assert(fields_text(rest) + "}"@ =~= jf_text(rest[0]) + (fields_text(rest.drop_first()) + "}"@));
            lemma_holds_char(s, e, fields_text(rest) + "}"@, 0);
            assert((fields_text(rest) + "}"@)[0] == jf_text(rest[0])[0]);
        } else {
            lemma_holds_char(s, e, fields_text(rest) + "}"@, 0);
        }
        let q = json_quoted(jf_name(f));
        assert(jf_text(f) =~= ","@ + member_text(f));
        lemma_holds_split(s, i, ","@, member_text(f));
        lemma_holds_char(s, i, ","@, 0);
        lemma_holds_char(s, i + 1, member_text(f), 0);
        assert(member_text(f)[0] == q[0]);
        assert(s[i + jf_text(f).len()] == s[i + 1 + member_text(f).len()]);
        lemma_member(s, i + 1, f);
        assert(!crate::jsonl::has_member(acc, jf_name(f))) by {
            if crate::jsonl::has_member(acc, jf_name(f)) {
                let b = choose|b: int| 0 <= b < acc.len() && #[trigger] acc[b].0 == jf_name(f);
                assert(jf_name(fs[0]) != acc[b].0);
            }
        }
        let acc2 = acc.push((jf_name(f), jf_value(f)));
        assert forall|a: int, b: int| 0 <= a < rest.len() && 0 <= b < acc2.len() implies jf_name(#[trigger] rest[a])
            != (#[trigger] acc2[b]).0 by {
            assert(rest[a] == fs[a + 1]);
            if b < acc.len() {
                assert(acc2[b] == acc[b]);
            } else {
                assert(jf_name(fs[0]) != jf_name(fs[a + 1]));
            }
        }
        assert forall|a: int, b: int| 0 <= a < b < rest.len() implies jf_name(#[trigger] rest[a]) != jf_name(
            #[trigger] rest[b],
        ) by {
            assert(rest[a] == fs[a + 1] && rest[b] == fs[b + 1]);
        }
        lemma_members(s, e, rest, acc2);
        assert(acc2 + pairs(rest) =~= acc + pairs(fs));
    }
}

pub open spec fn line_text(fs: Seq<JField>) -> Seq<char> {
    "{\"schema\":1"@ + fields_text(fs) + "}"@
}

pub open spec fn schema_member() -> (Seq<char>, ValueView) {
    ("schema"@, ValueView::Scalar(ScalarView::Int(1)))
}

pub open spec fn schema_field() -> JField {
    JField::Int("schema"@, 1)
}

proof fn lemma_head_text()
    ensures
        "{\"schema\":1"@ == seq!['{'] + member_text(schema_field()),
        jf_ok(schema_field()),
        member_text(schema_field())[0] == '"',
        jf_name(schema_field()) == schema_member().0,
        jf_value(schema_field()) == schema_member().1,
{
    reveal_strlit("{\"schema\":1");
    reveal_strlit("schema");
    reveal_strlit(":");
    lemma_plain_escaped("schema"@);
    assert(decimal(1) == seq!['1']);
    assert("{\"schema\":1"@ =~= seq!['{'] + member_text(schema_field()));
}

proof fn lemma_fields_first(fs: Seq<JField>)
    requires
        forall|k: int| 0 <= k < fs.len() ==> jf_ok(#[trigger] fs[k]),
    ensures
        (fields_text(fs) + "}"@)[0] == ',' || (fields_text(fs) + "}"@)[0] == '}',
        (fields_text(fs) + "}"@).len() >= 1,
{
    reveal_strlit("}");
    reveal_strlit(",");
    if fs.len() > 0 {
        assert(jf_ok(fs[0]));
        lemma_jf_shape(fs[0]);
        assert((fields_text(fs) + "}"@)[0] == jf_text(fs[0])[0]);
    }
}

proof fn lemma_first_member(s: Seq<char>, e: int, m: (Seq<char>, ValueView))
    requires
        1 < e <= s.len(),
        s.len() > 1,
        s[1] == '"',
        member_at(s, 1) == Ok::<((Seq<char>, ValueView), int), int>((m, e)),
    ensures
        members_rest(s, 1, Seq::empty()) == members_rest(s, e, seq![m]),
{
    assert(skip_json_ws(s, 1) == 1);
    assert(!crate::jsonl::has_member(Seq::<(Seq<char>, ValueView)>::empty(), m.0));
    assert(Seq::<(Seq<char>, ValueView)>::empty().push(m) == seq![m]);
}

proof fn lemma_object_text(fs: Seq<JField>)
    requires
        forall|k: int| 0 <= k < fs.len() ==> jf_ok(#[trigger] fs[k]),
    ensures
        line_text(fs)[0] == '{',
        holds_at(line_text(fs), 1, member_text(schema_field())),
        holds_at(line_text(fs), 1 + member_text(schema_field()).len() as int, fields_text(fs) + "}"@),
        line_text(fs).len() == 2 + member_text(schema_field()).len() + fields_text(fs).len(),
        line_text(fs)[1] == '"',
{
    let s = line_text(fs);
    let head = schema_field();
    let tail = fields_text(fs) + "}"@;
    reveal_strlit("}");
    lemma_head_text();
    assert(s =~= seq!['{'] + (member_text(head) + tail));
    assert(s.subrange(0, s.len() as int) =~= s);
    lemma_holds_split(s, 0, seq!['{'], member_text(head) + tail);
    lemma_holds_split(s, 1, member_text(head), tail);
    lemma_holds_char(s, 0, seq!['{'], 0);
    lemma_holds_char(s, 1, member_text(head), 0);
}

/// A catalogue line is read back as its members, the schema first.
#[verifier::spinoff_prover]
pub proof fn lemma_object(fs: Seq<JField>)
    requires
        forall|k: int| 0 <= k < fs.len() ==> jf_ok(#[trigger] fs[k]),
        names_fresh(fs, seq![schema_member()]),
    ensures
        object_of(line_text(fs)) == Ok::<Seq<(Seq<char>, ValueView)>, int>(seq![schema_member()] + pairs(fs)),
{
    let s = line_text(fs);
    let head = schema_field();
    let tail = fields_text(fs) + "}"@;
    lemma_head_text();
    lemma_fields_first(fs);
    lemma_object_text(fs);
    let e: int = 1 + member_text(head).len() as int;
    lemma_holds_char(s, e, tail, 0);
    lemma_member(s, 1, head);
    lemma_first_member(s, e, schema_member());
    lemma_members(s, e, fs, seq![schema_member()]);
    assert(skip_json_ws(s, 0) == 0);
    assert(skip_json_ws(s, s.len() as int) == s.len());
}

// ---------------------------------------------------------------------------
// A region's line as its members.
// ---------------------------------------------------------------------------

pub open spec fn slot_name(i: int) -> Seq<char> {
    if i == 0 {
        "key"@
    } else if i == 1 {
        "kind"@
    } else if i == 2 {
        "domain"@
    } else if i == 3 {
        "layer"@
    } else if i == 4 {
        "phase"@
    } else if i == 5 {
        "file"@
    } else if i == 6 {
        "start_marker"@
    } else if i == 7 {
        "content_start"@
    } else if i == 8 {
        "content_end"@
    } else if i == 9 {
        "end_marker"@
    } else if i == 10 {
        "summary"@
    } else if i == 11 {
        "hash"@
    } else if i == 12 {
        "status"@
    } else if i == 13 {
        "symbols"@
    } else if i == 14 {
        "related_symbols"@
    } else if i == 15 {
        "test_for"@
    } else {
        "symbol_docs"@
    }
}

/// The position of a member name in a catalogue line (the schema last).
pub open spec fn name_rank(n: Seq<char>) -> int {
    if n == "key"@ {
        0
    } else if n == "kind"@ {
        1
    } else if n == "domain"@ {
        2
    } else if n == "layer"@ {
        3
    } else if n == "phase"@ {
        4
    } else if n == "file"@ {
        5
    } else if n == "start_marker"@ {
        6
    } else if n == "content_start"@ {
        7
    } else if n == "content_end"@ {
        8
    } else if n == "end_marker"@ {
        9
    } else if n == "summary"@ {
        10
    } else if n == "hash"@ {
        11
    } else if n == "status"@ {
        12
    } else if n == "symbols"@ {
        13
    } else if n == "related_symbols"@ {
        14
    } else if n == "test_for"@ {
        15
    } else if n == "symbol_docs"@ {
        16
    } else if n == "schema"@ {
        17
    } else {
        18
    }
}

pub open spec fn plain_rec(t: Seq<char>) -> bool
    decreases t.len(),
{
    if t.len() == 0 {
        true
    } else {
        t[0] != '"' && t[0] != '\\' && (t[0] as u32) >= 0x20 && plain_rec(t.drop_first())
    }
}

proof fn lemma_plain_rec(t: Seq<char>)
    requires
        plain_rec(t),
    ensures
        plain(t),
    decreases t.len(),
{
    if t.len() > 0 {
        lemma_plain_rec(t.drop_first());
        assert forall|k: int| 0 <= k < t.len() implies (#[trigger] t[k]) != '"' && t[k] != '\\' && (t[k] as u32) >= 0x20 by {
            if k > 0 {
                assert(t[k] == t.drop_first()[k - 1]);
            }
        }
    }
}

proof fn lemma_names()
    ensures
        forall|i: int| 0 <= i < 17 ==> name_rank(#[trigger] slot_name(i)) == i && plain(slot_name(i)),
        name_rank("schema"@) == 17,
{
    reveal_strlit("key");
    reveal_strlit("kind");
    reveal_strlit("domain");
    reveal_strlit("layer");
    reveal_strlit("phase");
    reveal_strlit("file");
    reveal_strlit("start_marker");
    reveal_strlit("content_start");
    reveal_strlit("content_end");
    reveal_strlit("end_marker");
    reveal_strlit("summary");
    reveal_strlit("hash");
    reveal_strlit("status");
    reveal_strlit("symbols");
    reveal_strlit("related_symbols");
    reveal_strlit("test_for");
    reveal_strlit("symbol_docs");
    reveal_strlit("schema");
    reveal_with_fuel(plain_rec, 20);
    assert(name_rank("key"@) == 0);
    assert(plain_rec("key"@));
    lemma_plain_rec("key"@);
    assert(name_rank("kind"@) == 1);
    assert(plain_rec("kind"@));
    lemma_plain_rec("kind"@);
    assert(name_rank("domain"@) == 2);
    assert(plain_rec("domain"@));
    lemma_plain_rec("domain"@);
    assert(name_rank("layer"@) == 3);
    assert(plain_rec("layer"@));
    lemma_plain_rec("layer"@);
    assert(name_rank("phase"@) == 4);
    assert(plain_rec("phase"@));
    lemma_plain_rec("phase"@);
    assert(name_rank("file"@) == 5);
    assert(plain_rec("file"@));
    lemma_plain_rec("file"@);
    assert(name_rank("start_marker"@) == 6);
    assert(plain_rec("start_marker"@));
    lemma_plain_rec("start_marker"@);
    assert(name_rank("content_start"@) == 7);
    assert(plain_rec("content_start"@));
    lemma_plain_rec("content_start"@);
    assert(name_rank("content_end"@) == 8);
    assert(plain_rec("content_end"@));
    lemma_plain_rec("content_end"@);
    assert(name_rank("end_marker"@) == 9);
    assert(plain_rec("end_marker"@));
    lemma_plain_rec("end_marker"@);
    assert(name_rank("summary"@) == 10);
    assert(plain_rec("summary"@));
    lemma_plain_rec("summary"@);
    assert(name_rank("hash"@) == 11);
    assert(plain_rec("hash"@));
    lemma_plain_rec("hash"@);
    assert(name_rank("status"@) == 12);
    assert(plain_rec("status"@));
    lemma_plain_rec("status"@);
    assert(name_rank("symbols"@) == 13);
    assert(plain_rec("symbols"@));
    lemma_plain_rec("symbols"@);
    assert(name_rank("related_symbols"@) == 14);
    assert(plain_rec("related_symbols"@));
    lemma_plain_rec("related_symbols"@);
    assert(name_rank("test_for"@) == 15);
    assert(plain_rec("test_for"@));
    lemma_plain_rec("test_for"@);
    assert(name_rank("symbol_docs"@) == 16);
    assert(plain_rec("symbol_docs"@));
    lemma_plain_rec("symbol_docs"@);
    assert forall|i: int| 0 <= i < 17 implies name_rank(#[trigger] slot_name(i)) == i && plain(slot_name(i)) by {
        if i == 0 { assert(slot_name(i) == "key"@); }
        if i == 1 { assert(slot_name(i) == "kind"@); }
        if i == 2 { assert(slot_name(i) == "domain"@); }
        if i == 3 { assert(slot_name(i) == "layer"@); }
        if i == 4 { assert(slot_name(i) == "phase"@); }
        if i == 5 { assert(slot_name(i) == "file"@); }
        if i == 6 { assert(slot_name(i) == "start_marker"@); }
        if i == 7 { assert(slot_name(i) == "content_start"@); }
        if i == 8 { assert(slot_name(i) == "content_end"@); }
        if i == 9 { assert(slot_name(i) == "end_marker"@); }
        if i == 10 { assert(slot_name(i) == "summary"@); }
        if i == 11 { assert(slot_name(i) == "hash"@); }
        if i == 12 { assert(slot_name(i) == "status"@); }
        if i == 13 { assert(slot_name(i) == "symbols"@); }
        if i == 14 { assert(slot_name(i) == "related_symbols"@); }
        if i == 15 { assert(slot_name(i) == "test_for"@); }
        if i == 16 { assert(slot_name(i) == "symbol_docs"@); }
    }
}

pub open spec fn sym_texts(r: RegionRec) -> Seq<Seq<char>> {
    r.symbols.map_values(|s: SymView| sym_text(s))
}

pub open spec fn doc_texts(r: RegionRec) -> Seq<Seq<char>> {
    r.symbol_docs.map_values(|d: DocView| doc_text(d))
}

pub open spec fn opt_text_slot(n: Seq<char>, o: Option<Seq<char>>) -> Seq<JField> {
    match o {
        Some(v) => seq![JField::Text(n, v)],
        None => Seq::empty(),
    }
}

pub open spec fn list_slot(n: Seq<char>, vs: Seq<Seq<char>>) -> Seq<JField> {
    if vs.len() > 0 {
        seq![JField::List(n, vs)]
    } else {
        Seq::empty()
    }
}

/// The member of a region at slot `i`, when the line carries one.
pub open spec fn slot(r: RegionRec, i: int) -> Seq<JField> {
    if i == 0 {
        seq![JField::Text(slot_name(0), r.key)]
    } else if i == 1 {
        seq![JField::Text(slot_name(1), r.kind)]
    } else if i == 2 {
        opt_text_slot(slot_name(2), r.domain)
    } else if i == 3 {
        opt_text_slot(slot_name(3), r.layer)
    } else if i == 4 {
        match r.phase {
            Some(p) => seq![JField::Int(slot_name(4), p as int)],
            None => Seq::empty(),
        }
    } else if i == 5 {
        seq![JField::Text(slot_name(5), r.file)]
    } else if i == 6 {
        seq![JField::Int(slot_name(6), r.start_marker)]
    } else if i == 7 {
        seq![JField::Int(slot_name(7), r.content_start)]
    } else if i == 8 {
        seq![JField::Int(slot_name(8), r.content_end)]
    } else if i == 9 {
        seq![JField::Int(slot_name(9), r.end_marker)]
    } else if i == 10 {
        if r.summary.len() > 0 {
            seq![JField::Text(slot_name(10), r.summary)]
        } else {
            Seq::empty()
        }
    } else if i == 11 {
        seq![JField::Text(slot_name(11), r.hash)]
    } else if i == 12 {
        seq![JField::Text(slot_name(12), r.status)]
    } else if i == 13 {
        list_slot(slot_name(13), sym_texts(r))
    } else if i == 14 {
        list_slot(slot_name(14), r.related_symbols)
    } else if i == 15 {
        list_slot(slot_name(15), r.test_for)
    } else if i == 16 {
        list_slot(slot_name(16), doc_texts(r))
    } else {
        Seq::empty()
    }
}

pub open spec fn fields_from(r: RegionRec, i: int) -> Seq<JField>
    decreases 17 - i,
{
    if i < 0 || i >= 17 {
        Seq::empty()
    } else {
        slot(r, i) + fields_from(r, i + 1)
    }
}

/// Every number of the region fits an `i64` and a `usize`.
pub open spec fn numbers_fit(r: RegionRec) -> bool {
    &&& 0 <= r.start_marker <= i64::MAX && r.start_marker <= usize::MAX
    &&& 0 <= r.content_start <= i64::MAX && r.content_start <= usize::MAX
    &&& 0 <= r.content_end <= i64::MAX && r.content_end <= usize::MAX
    &&& 0 <= r.end_marker <= i64::MAX && r.end_marker <= usize::MAX
    &&& (r.phase matches Some(p) ==> p <= i64::MAX)
}

proof fn lemma_fields_concat(a: Seq<JField>, b: Seq<JField>)
    ensures
        fields_text(a + b) == fields_text(a) + fields_text(b),
    decreases a.len(),
{
    if a.len() == 0 {
        assert(a + b =~= b);
        assert(fields_text(a) + fields_text(b) =~= fields_text(b));
    } else {
        lemma_fields_concat(a.drop_first(), b);
        assert((a + b).drop_first() =~= a.drop_first() + b);
        assert(fields_text(a + b) =~= fields_text(a) + fields_text(b));
    }
}

proof fn lemma_fields_single(f: JField)
    ensures
        fields_text(seq![f]) == jf_text(f),
{
    assert(seq![f].drop_first() =~= Seq::<JField>::empty());
    assert(seq![f][0] == f);
    assert(fields_text(Seq::<JField>::empty()) == Seq::<char>::empty());
    assert(fields_text(seq![f]) == jf_text(f) + Seq::<char>::empty());
    assert(fields_text(seq![f]) =~= jf_text(f));
}

/// The text of slot `i` in a region's line.
#[verifier::opaque]
pub open spec fn slot_text(r: RegionRec, i: int) -> Seq<char> {
    fields_text(slot(r, i))
}

pub open spec fn pieces(r: RegionRec, i: int) -> Seq<char>
    decreases 17 - i,
{
    if i < 0 || i >= 17 {
        Seq::empty()
    } else {
        slot_text(r, i) + pieces(r, i + 1)
    }
}

proof fn lemma_fields_from_text(r: RegionRec, i: int)
    ensures
        fields_text(fields_from(r, i)) == pieces(r, i),
    decreases 17 - i,
{
    reveal(slot_text);
    if 0 <= i < 17 {
        lemma_fields_from_text(r, i + 1);
        lemma_fields_concat(slot(r, i), fields_from(r, i + 1));
    }
}

proof fn lemma_slot_texts(r: RegionRec)
    ensures
        slot_text(r, 0) == text_field("key"@, r.key),
        slot_text(r, 1) == text_field("kind"@, r.kind),
        slot_text(r, 2) == opt_field("domain"@, r.domain),
        slot_text(r, 3) == opt_field("layer"@, r.layer),
        slot_text(r, 4) == (match r.phase {
            Some(p) => int_field("phase"@, p as int),
            None => Seq::empty(),
        }),
        slot_text(r, 5) == text_field("file"@, r.file),
        slot_text(r, 6) == int_field("start_marker"@, r.start_marker),
        slot_text(r, 7) == int_field("content_start"@, r.content_start),
        slot_text(r, 8) == int_field("content_end"@, r.content_end),
        slot_text(r, 9) == int_field("end_marker"@, r.end_marker),
        slot_text(r, 10) == (if r.summary.len() > 0 {
            text_field("summary"@, r.summary)
        } else {
            Seq::empty()
        }),
        slot_text(r, 11) == text_field("hash"@, r.hash),
        slot_text(r, 12) == text_field("status"@, r.status),
        slot_text(r, 13) == list_field("symbols"@, sym_texts(r)),
        slot_text(r, 14) == list_field("related_symbols"@, r.related_symbols),
        slot_text(r, 15) == list_field("test_for"@, r.test_for),
        slot_text(r, 16) == list_field("symbol_docs"@, doc_texts(r)),
{
    reveal(slot_text);
    assert(fields_text(Seq::<JField>::empty()) == Seq::<char>::empty());
    lemma_fields_single(JField::Text(slot_name(0), r.key));
    lemma_fields_single(JField::Text(slot_name(1), r.kind));
    match r.domain {
        Some(d) => lemma_fields_single(JField::Text(slot_name(2), d)),
        None => {},
    }
    match r.layer {
        Some(d) => lemma_fields_single(JField::Text(slot_name(3), d)),
        None => {},
    }
    match r.phase {
        Some(p) => lemma_fields_single(JField::Int(slot_name(4), p as int)),
        None => {},
    }
    lemma_fields_single(JField::Text(slot_name(5), r.file));
    lemma_fields_single(JField::Int(slot_name(6), r.start_marker));
    lemma_fields_single(JField::Int(slot_name(7), r.content_start));
    lemma_fields_single(JField::Int(slot_name(8), r.content_end));
    lemma_fields_single(JField::Int(slot_name(9), r.end_marker));
    lemma_fields_single(JField::Text(slot_name(10), r.summary));
    lemma_fields_single(JField::Text(slot_name(11), r.hash));
    lemma_fields_single(JField::Text(slot_name(12), r.status));
    lemma_fields_single(JField::List(slot_name(13), sym_texts(r)));
    lemma_fields_single(JField::List(slot_name(14), r.related_symbols));
    lemma_fields_single(JField::List(slot_name(15), r.test_for));
    lemma_fields_single(JField::List(slot_name(16), doc_texts(r)));
}

proof fn lemma_assoc(l: Seq<char>, a: Seq<char>, p: Seq<char>)
    ensures
        l + (a + p) == (l + a) + p,
{
    assert(l + (a + p) =~= (l + a) + p);
}

/// A region's catalogue line is the line of its members.
#[verifier::spinoff_prover]
#[verifier::rlimit(40)]
pub proof fn lemma_region_line(r: RegionRec)
    ensures
        region_json(r) == line_text(fields_from(r, 0)),
{
    reveal(region_json);
    lemma_slot_texts(r);
    lemma_fields_from_text(r, 0);
    let l0 = "{\"schema\":1"@;
    let l1 = l0 + slot_text(r, 0);
    assert(pieces(r, 0) == slot_text(r, 0) + pieces(r, 1));
    lemma_assoc(l0, slot_text(r, 0), pieces(r, 1));
    let l2 = l1 + slot_text(r, 1);
    assert(pieces(r, 1) == slot_text(r, 1) + pieces(r, 2));
    lemma_assoc(l1, slot_text(r, 1), pieces(r, 2));
    let l3 = l2 + slot_text(r, 2);
    assert(pieces(r, 2) == slot_text(r, 2) + pieces(r, 3));
    lemma_assoc(l2, slot_text(r, 2), pieces(r, 3));
    let l4 = l3 + slot_text(r, 3);
    assert(pieces(r, 3) == slot_text(r, 3) + pieces(r, 4));
    lemma_assoc(l3, slot_text(r, 3), pieces(r, 4));
    let l5 = l4 + slot_text(r, 4);
    assert(pieces(r, 4) == slot_text(r, 4) + pieces(r, 5));
    lemma_assoc(l4, slot_text(r, 4), pieces(r, 5));
    let l6 = l5 + slot_text(r, 5);
    assert(pieces(r, 5) == slot_text(r, 5) + pieces(r, 6));
    lemma_assoc(l5, slot_text(r, 5), pieces(r, 6));
    let l7 = l6 + slot_text(r, 6);
    assert(pieces(r, 6) == slot_text(r, 6) + pieces(r, 7));
    lemma_assoc(l6, slot_text(r, 6), pieces(r, 7));
    let l8 = l7 + slot_text(r, 7);
    assert(pieces(r, 7) == slot_text(r, 7) + pieces(r, 8));
    lemma_assoc(l7, slot_text(r, 7), pieces(r, 8));
    let l9 = l8 + slot_text(r, 8);
    assert(pieces(r, 8) == slot_text(r, 8) + pieces(r, 9));
    lemma_assoc(l8, slot_text(r, 8), pieces(r, 9));
    let l10 = l9 + slot_text(r, 9);
    assert(pieces(r, 9) == slot_text(r, 9) + pieces(r, 10));
    lemma_assoc(l9, slot_text(r, 9), pieces(r, 10));
    let l11 = l10 + slot_text(r, 10);
    assert(pieces(r, 10) == slot_text(r, 10) + pieces(r, 11));
    lemma_assoc(l10, slot_text(r, 10), pieces(r, 11));
    let l12 = l11 + slot_text(r, 11);
    assert(pieces(r, 11) == slot_text(r, 11) + pieces(r, 12));
    lemma_assoc(l11, slot_text(r, 11), pieces(r, 12));
    let l13 = l12 + slot_text(r, 12);
    assert(pieces(r, 12) == slot_text(r, 12) + pieces(r, 13));
    lemma_assoc(l12, slot_text(r, 12), pieces(r, 13));
    let l14 = l13 + slot_text(r, 13);
    assert(pieces(r, 13) == slot_text(r, 13) + pieces(r, 14));
    lemma_assoc(l13, slot_text(r, 13), pieces(r, 14));
    let l15 = l14 + slot_text(r, 14);
    assert(pieces(r, 14) == slot_text(r, 14) + pieces(r, 15));
    lemma_assoc(l14, slot_text(r, 14), pieces(r, 15));
    let l16 = l15 + slot_text(r, 15);
    assert(pieces(r, 15) == slot_text(r, 15) + pieces(r, 16));
    lemma_assoc(l15, slot_text(r, 15), pieces(r, 16));
    let l17 = l16 + slot_text(r, 16);
    assert(pieces(r, 16) == slot_text(r, 16) + pieces(r, 17));
    lemma_assoc(l16, slot_text(r, 16), pieces(r, 17));
    assert(pieces(r, 17) == Seq::<char>::empty());
    assert(l17 + pieces(r, 17) =~= l17);
    assert(l0 + pieces(r, 0) == l17);
    assert(region_json(r) == l17 + "}"@);
}

proof fn lemma_slot_props(r: RegionRec, i: int)
    requires
        0 <= i < 17,
        numbers_fit(r),
    ensures
        slot(r, i).len() <= 1,
        forall|a: int| 0 <= a < slot(r, i).len() ==> jf_name(#[trigger] slot(r, i)[a]) == slot_name(i) && jf_ok(slot(r, i)[a]),
{
    lemma_names();
    assert(plain(slot_name(i)));
}

pub open spec fn ranked(fs: Seq<JField>, lo: int) -> bool {
    &&& forall|a: int| 0 <= a < fs.len() ==> jf_ok(#[trigger] fs[a])
    &&& forall|a: int| 0 <= a < fs.len() ==> lo <= name_rank(jf_name(#[trigger] fs[a])) < 17
    &&& forall|a: int, b: int| 0 <= a < b < fs.len() ==> name_rank(jf_name(#[trigger] fs[a])) < name_rank(jf_name(#[trigger] fs[b]))
}

proof fn lemma_fields_ranked(r: RegionRec, i: int)
    requires
        0 <= i <= 17,
        numbers_fit(r),
    ensures
        ranked(fields_from(r, i), i),
    decreases 17 - i,
{
    lemma_names();
    if i < 17 {
        lemma_fields_ranked(r, i + 1);
        lemma_slot_props(r, i);
        let a0 = slot(r, i);
        let b0 = fields_from(r, i + 1);
        let fs = a0 + b0;
        assert(fields_from(r, i) == fs);
        assert forall|a: int| 0 <= a < fs.len() implies jf_ok(#[trigger] fs[a]) && i <= name_rank(jf_name(fs[a])) < 17 by {
            if a < a0.len() {
                assert(fs[a] == a0[a]);
                assert(name_rank(slot_name(i)) == i);
            } else {
                assert(fs[a] == b0[a - a0.len()]);
            }
        }
        assert forall|a: int, b: int| 0 <= a < b < fs.len() implies name_rank(jf_name(#[trigger] fs[a])) < name_rank(
            jf_name(#[trigger] fs[b]),
        ) by {
            if b < a0.len() {
            } else if a < a0.len() {
                assert(fs[a] == a0[a]);
                assert(name_rank(slot_name(i)) == i);
                assert(fs[b] == b0[b - a0.len()]);
            } else {
                assert(fs[a] == b0[a - a0.len()]);
                assert(fs[b] == b0[b - a0.len()]);
            }
        }
    }
}

proof fn lemma_fields_fresh(r: RegionRec)
    requires
        numbers_fit(r),
    ensures
        forall|k: int| 0 <= k < fields_from(r, 0).len() ==> jf_ok(#[trigger] fields_from(r, 0)[k]),
        names_fresh(fields_from(r, 0), seq![schema_member()]),
{
    lemma_fields_ranked(r, 0);
    lemma_names();
    let fs = fields_from(r, 0);
    assert forall|a: int, b: int| 0 <= a < fs.len() && 0 <= b < seq![schema_member()].len() implies jf_name(
        #[trigger] fs[a],
    ) != (#[trigger] seq![schema_member()][b]).0 by {
        assert(name_rank(jf_name(fs[a])) < 17);
    }
}

proof fn lemma_mv_concat(x: Seq<(Seq<char>, ValueView)>, y: Seq<(Seq<char>, ValueView)>, k: Seq<char>)
    ensures
        member_value(x + y, k) == (if member_value(x, k) is Some {
            member_value(x, k)
        } else {
            member_value(y, k)
        }),
    decreases x.len(),
{
    if x.len() == 0 {
        assert(x + y =~= y);
    } else {
        lemma_mv_concat(x.drop_first(), y, k);
        assert((x + y).drop_first() =~= x.drop_first() + y);
        assert((x + y)[0] == x[0]);
    }
}

proof fn lemma_pairs_concat(a: Seq<JField>, b: Seq<JField>)
    ensures
        pairs(a + b) == pairs(a) + pairs(b),
{
    assert(pairs(a + b) =~= pairs(a) + pairs(b));
}

/// The value a region's line gives for slot `j`.
pub open spec fn slot_value(r: RegionRec, j: int) -> Option<ValueView> {
    if slot(r, j).len() > 0 {
        Some(jf_value(slot(r, j)[0]))
    } else {
        None
    }
}

proof fn lemma_lookup(r: RegionRec, i: int, k: Seq<char>)
    requires
        0 <= i <= 17,
        numbers_fit(r),
    ensures
        member_value(pairs(fields_from(r, i)), k) == (if i <= name_rank(k) < 17 {
            slot_value(r, name_rank(k))
        } else {
            None
        }),
    decreases 17 - i,
{
    lemma_names();
    if i == 17 {
        assert(pairs(fields_from(r, i)) =~= Seq::<(Seq<char>, ValueView)>::empty());
    } else {
        lemma_lookup(r, i + 1, k);
        lemma_slot_props(r, i);
        lemma_pairs_concat(slot(r, i), fields_from(r, i + 1));
        lemma_mv_concat(pairs(slot(r, i)), pairs(fields_from(r, i + 1)), k);
        let p = pairs(slot(r, i));
        if slot(r, i).len() == 0 {
            assert(p.len() == 0);
            assert(member_value(p, k) is None);
            assert(slot_value(r, i) is None);
        } else {
            assert(p.len() == 1);
            assert(p[0].0 == slot_name(i));
            assert(p[0].1 == jf_value(slot(r, i)[0]));
            assert(p.drop_first().len() == 0);
            assert(member_value(p.drop_first(), k) is None);
            assert(member_value(p, k) == (if p[0].0 == k {
                Some(p[0].1)
            } else {
                member_value(p.drop_first(), k)
            }));
            if k == slot_name(i) {
                assert(name_rank(k) == i);
            } else if name_rank(k) == i {
                assert(name_rank(slot_name(i)) == i);
                assert(slot_name(name_rank(k)) == k) by {
                    lemma_rank_name(k);
                }
            }
        }
    }
}

proof fn lemma_rank_name(k: Seq<char>)
    requires
        0 <= name_rank(k) < 17,
    ensures
        slot_name(name_rank(k)) == k,
{
    reveal_strlit("key");
}

// ---------------------------------------------------------------------------
// Links read back.
// ---------------------------------------------------------------------------

/// A link part written as it is: no `|` and no surrounding whitespace.
pub open spec fn bare(t: Seq<char>) -> bool {
    &&& trim(t) == t
    &&& forall|k: int| 0 <= k < t.len() ==> t[k] != '|'
}

proof fn lemma_next_bar(s: Seq<char>, i: int, e: int)
    requires
        0 <= i <= e <= s.len(),
        forall|k: int| i <= k < e ==> s[k] != '|',
        e < s.len() ==> s[e] == '|',
    ensures
        next_occurrence(s, bar(), i) == e,
    decreases e - i,
{
    if i < e {
        assert(!occurs_at(s, i, bar())) by {
            if occurs_at(s, i, bar()) {
                assert(s.subrange(i, i + 1)[0] == s[i]);
            }
        }
        lemma_next_bar(s, i + 1, e);
    } else if e < s.len() {
        assert(s.subrange(e, e + 1) =~= bar());
    }
}

/// Splitting at `|` a text whose part from `i` has no `|` up to `e`.
proof fn lemma_split_step(s: Seq<char>, i: int, e: int)
    requires
        0 <= i <= e <= s.len(),
        forall|k: int| i <= k < e ==> s[k] != '|',
        e < s.len() ==> s[e] == '|',
    ensures
        e == s.len() ==> split_from(s, bar(), i) == seq![s.subrange(i, e)],
        e < s.len() ==> split_from(s, bar(), i) == seq![s.subrange(i, e)] + split_from(s, bar(), e + 1),
{
    lemma_next_bar(s, i, e);
}

proof fn lemma_bare_at(s: Seq<char>, p: int, t: Seq<char>)
    requires
        holds_at(s, p, t),
        bare(t),
    ensures
        forall|k: int| p <= k < p + t.len() ==> s[k] != '|',
        s.subrange(p, p + t.len()) == t,
{
    assert forall|k: int| p <= k < p + t.len() implies s[k] != '|' by {
        lemma_holds_char(s, p, t, k - p);
    }
}

proof fn lemma_lits_bare(k: SymbolKind, r: SymbolRole)
    ensures
        bare(kind_str(k)),
        bare(role_str(r)),
{
}

pub open spec fn sym_ready(x: SymView) -> bool {
    &&& symbol_identity_spec(x.identity)
    &&& symbol_name_spec(x.name)
    &&& bare(x.identity)
    &&& bare(x.name)
}

pub open spec fn doc_ready(d: DocView) -> bool {
    &&& symbol_identity_spec(d.identity)
    &&& valid_key_spec(d.document)
    &&& bare(d.identity)
    &&& bare(d.document)
}

proof fn lemma_split_cons(t: Seq<char>, i: int, a: Seq<char>)
    requires
        holds_at(t, i, a + seq!['|']),
        bare(a),
    ensures
        split_from(t, bar(), i) == seq![a] + split_from(t, bar(), i + a.len() + 1),
{
    lemma_holds_split(t, i, a, seq!['|']);
    lemma_holds_char(t, i + a.len(), seq!['|'], 0);
    lemma_bare_at(t, i, a);
    lemma_split_step(t, i, i + a.len());
}

proof fn lemma_split_last(t: Seq<char>, i: int, a: Seq<char>)
    requires
        holds_at(t, i, a),
        i + a.len() == t.len(),
        bare(a),
    ensures
        split_from(t, bar(), i) == seq![a],
{
    lemma_bare_at(t, i, a);
    lemma_split_step(t, i, t.len() as int);
}

#[verifier::spinoff_prover]
#[verifier::rlimit(40)]
proof fn lemma_split_four(a: Seq<char>, b: Seq<char>, c: Seq<char>, d: Seq<char>)
    requires
        bare(a),
        bare(b),
        bare(c),
        bare(d),
    ensures
        split(a + "|"@ + b + "|"@ + c + "|"@ + d, bar()) == seq![a, b, c, d],
{
    reveal_strlit("|");
    let t = a + "|"@ + b + "|"@ + c + "|"@ + d;
    let p1 = a.len() as int + 1;
    let p2 = p1 + b.len() + 1;
    let p3 = p2 + c.len() + 1;
    assert(t =~= (a + seq!['|']) + ((b + seq!['|']) + ((c + seq!['|']) + d)));
    assert(t.subrange(0, t.len() as int) =~= t);
    lemma_holds_split(t, 0, a + seq!['|'], (b + seq!['|']) + ((c + seq!['|']) + d));
    lemma_holds_split(t, p1, b + seq!['|'], (c + seq!['|']) + d);
    lemma_holds_split(t, p2, c + seq!['|'], d);
    lemma_split_cons(t, 0, a);
    lemma_split_cons(t, p1, b);
    lemma_split_cons(t, p2, c);
    lemma_split_last(t, p3, d);
    assert(split(t, bar()) =~= seq![a, b, c, d]);
}

proof fn lemma_split_two(a: Seq<char>, d: Seq<char>)
    requires
        bare(a),
        bare(d),
    ensures
        split(a + "|"@ + d, bar()) == seq![a, d],
{
    reveal_strlit("|");
    let t = a + "|"@ + d;
    assert(t =~= (a + seq!['|']) + d);
    assert(t.subrange(0, t.len() as int) =~= t);
    lemma_holds_split(t, 0, a + seq!['|'], d);
    lemma_split_cons(t, 0, a);
    lemma_split_last(t, a.len() as int + 1, d);
    assert(split(t, bar()) =~= seq![a, d]);
}

/// A symbol binding is read back as the symbol.
proof fn lemma_symbol_back(x: SymView)
    requires
        sym_ready(x),
    ensures
        symbol_ok(sym_text(x)),
        symbol_of(sym_text(x)) == x,
{
    lemma_lits_bare(x.kind, x.role);
    lemma_split_four(x.identity, x.name, kind_str(x.kind), role_str(x.role));
    let parts = split(sym_text(x), bar());
    assert(binding_parts(sym_text(x)) =~= seq![x.identity, x.name, kind_str(x.kind), role_str(x.role)]);
    assert(kind_of(kind_str(x.kind)) == Some(x.kind));
    assert(role_of(role_str(x.role)) == Some(x.role));
}

/// A documentation link is read back as the link.
proof fn lemma_doc_back(x: DocView)
    requires
        doc_ready(x),
    ensures
        symbol_doc_ok(doc_text(x)),
        doc_of(doc_text(x)) == x,
{
    lemma_split_two(x.identity, x.document);
    assert(binding_parts(doc_text(x)) =~= seq![x.identity, x.document]);
}

// ---------------------------------------------------------------------------
// A region's record read back.
// ---------------------------------------------------------------------------

/// What the catalogue can carry exactly: numbers that fit, links written as
/// the scanner reads them, and no link twice.
pub open spec fn catalogue_ready(r: RegionRec) -> bool {
    &&& numbers_fit(r)
    &&& forall|k: int| 0 <= k < r.symbols.len() ==> sym_ready(#[trigger] r.symbols[k])
    &&& forall|k: int| 0 <= k < r.symbol_docs.len() ==> doc_ready(#[trigger] r.symbol_docs[k])
    &&& all_identities(r.related_symbols)
    &&& all_identities(r.test_for)
    &&& !has_dup(r.symbols)
    &&& !has_dup(r.symbol_docs)
    &&& !has_dup(r.related_symbols)
    &&& !has_dup(r.test_for)
}

pub open spec fn record_members(r: RegionRec) -> Seq<(Seq<char>, ValueView)> {
    seq![schema_member()] + pairs(fields_from(r, 0))
}

proof fn lemma_record_lookup(r: RegionRec, k: Seq<char>)
    requires
        numbers_fit(r),
        k != "schema"@,
    ensures
        member_value(record_members(r), k) == (if 0 <= name_rank(k) < 17 {
            slot_value(r, name_rank(k))
        } else {
            None
        }),
{
    reveal_strlit("schema");
    lemma_lookup(r, 0, k);
    let m = record_members(r);
    assert(m[0] == schema_member());
    assert(m.drop_first() =~= pairs(fields_from(r, 0)));
}

proof fn lemma_str_array(ts: Seq<Seq<char>>)
    ensures
        value_str_array(ValueView::Array(str_items(ts))) == Some(ts),
{
    assert(Seq::new(str_items(ts).len(), |i: int| str_items(ts)[i]->Str_0) =~= ts);
}

proof fn lemma_list_member(r: RegionRec, i: int, ts: Seq<Seq<char>>)
    requires
        numbers_fit(r),
        13 <= i < 17,
        slot(r, i) == list_slot(slot_name(i), ts),
    ensures
        opt_list_of(record_members(r), slot_name(i)) == Ok::<Seq<Seq<char>>, Seq<char>>(ts),
{
    lemma_names();
    assert(name_rank(slot_name(i)) == i);
    reveal_strlit("schema");
    assert(slot_name(i) != "schema"@) by {
        assert(name_rank("schema"@) == 17);
    }
    lemma_record_lookup(r, slot_name(i));
    lemma_str_array(ts);
    if ts.len() == 0 {
        assert(ts =~= Seq::<Seq<char>>::empty());
    }
}

/// The members of a region's line give the region back.
#[verifier::spinoff_prover]
#[verifier::rlimit(80)]
pub proof fn lemma_record(r: RegionRec)
    requires
        catalogue_ready(r),
    ensures
        schema_of(record_members(r)) == 1,
        record_of(record_members(r)) == Ok::<RegionRec, Seq<char>>(r),
{
    let m = record_members(r);
    lemma_names();
    reveal_strlit("schema");
    assert(m[0] == schema_member());
    let sv = sym_texts(r);
    let dv = doc_texts(r);
    lemma_list_member(r, 13, sv);
    lemma_list_member(r, 14, r.related_symbols);
    lemma_list_member(r, 15, r.test_for);
    lemma_list_member(r, 16, dv);
    assert forall|k: int| 0 <= k < sv.len() implies symbol_ok(#[trigger] sv[k]) by {
        lemma_symbol_back(r.symbols[k]);
    }
    assert forall|k: int| 0 <= k < dv.len() implies crate::nav::symbol_doc_ok(#[trigger] dv[k]) by {
        lemma_doc_back(r.symbol_docs[k]);
    }
    assert(sv.map_values(|v: Seq<char>| symbol_of(v)) =~= r.symbols) by {
        assert forall|k: int| 0 <= k < sv.len() implies sv.map_values(|v: Seq<char>| symbol_of(v))[k] == #[trigger] r.symbols[k] by {
            lemma_symbol_back(r.symbols[k]);
        }
    }
    assert(dv.map_values(|v: Seq<char>| doc_of(v)) =~= r.symbol_docs) by {
        assert forall|k: int| 0 <= k < dv.len() implies dv.map_values(|v: Seq<char>| doc_of(v))[k] == #[trigger] r.symbol_docs[k] by {
            lemma_doc_back(r.symbol_docs[k]);
        }
    }
    assert(all_symbols(sv));
    assert(all_docs(dv));
    lemma_record_lookup(r, "key"@);
    lemma_record_lookup(r, "kind"@);
    lemma_record_lookup(r, "domain"@);
    lemma_record_lookup(r, "layer"@);
    lemma_record_lookup(r, "phase"@);
    lemma_record_lookup(r, "file"@);
    lemma_record_lookup(r, "start_marker"@);
    lemma_record_lookup(r, "content_start"@);
    lemma_record_lookup(r, "content_end"@);
    lemma_record_lookup(r, "end_marker"@);
    lemma_record_lookup(r, "summary"@);
    lemma_record_lookup(r, "hash"@);
    lemma_record_lookup(r, "status"@);
    assert(slot_name(0) == "key"@ && name_rank(slot_name(0)) == 0);
    assert(slot_name(1) == "kind"@ && name_rank(slot_name(1)) == 1);
    assert(slot_name(2) == "domain"@ && name_rank(slot_name(2)) == 2);
    assert(slot_name(3) == "layer"@ && name_rank(slot_name(3)) == 3);
    assert(slot_name(4) == "phase"@ && name_rank(slot_name(4)) == 4);
    assert(slot_name(5) == "file"@ && name_rank(slot_name(5)) == 5);
    assert(slot_name(6) == "start_marker"@ && name_rank(slot_name(6)) == 6);
    assert(slot_name(7) == "content_start"@ && name_rank(slot_name(7)) == 7);
    assert(slot_name(8) == "content_end"@ && name_rank(slot_name(8)) == 8);
    assert(slot_name(9) == "end_marker"@ && name_rank(slot_name(9)) == 9);
    assert(slot_name(10) == "summary"@ && name_rank(slot_name(10)) == 10);
    assert(slot_name(11) == "hash"@ && name_rank(slot_name(11)) == 11);
    assert(slot_name(12) == "status"@ && name_rank(slot_name(12)) == 12);
    assert(slot_name(13) == "symbols"@ && name_rank(slot_name(13)) == 13);
    assert(slot_name(14) == "related_symbols"@ && name_rank(slot_name(14)) == 14);
    assert(slot_name(15) == "test_for"@ && name_rank(slot_name(15)) == 15);
    assert(slot_name(16) == "symbol_docs"@ && name_rank(slot_name(16)) == 16);
    assert(crate::nav_catalog_read::req_str_of(m, "key"@) == Ok::<Seq<char>, Seq<char>>(r.key));
    assert(crate::nav_catalog_read::req_str_of(m, "file"@) == Ok::<Seq<char>, Seq<char>>(r.file));
    assert(crate::nav_catalog_read::req_int_of(m, "start_marker"@) == Ok::<int, Seq<char>>(r.start_marker));
    assert(crate::nav_catalog_read::req_int_of(m, "end_marker"@) == Ok::<int, Seq<char>>(r.end_marker));
    assert(crate::nav_catalog_read::req_int_of(m, "content_start"@) == Ok::<int, Seq<char>>(r.content_start));
    assert(crate::nav_catalog_read::req_int_of(m, "content_end"@) == Ok::<int, Seq<char>>(r.content_end));
    let rf = record_fields(m, r.symbols, r.symbol_docs, r.related_symbols, r.test_for);
    assert(rf is Ok);
    let out = rf->Ok_0;
    assert(out.key == r.key);
    assert(out.kind == r.kind);
    assert(out.domain == r.domain);
    assert(out.layer == r.layer);
    assert(out.phase == r.phase);
    assert(out.file == r.file);
    assert(out.start_marker == r.start_marker);
    assert(out.content_start == r.content_start);
    assert(out.content_end == r.content_end);
    assert(out.end_marker == r.end_marker);
    assert(out.summary == r.summary);
    assert(out.hash == r.hash);
    assert(out.status == r.status);
    assert(out == r);
}

// ---------------------------------------------------------------------------
// Whole lines.
// ---------------------------------------------------------------------------

proof fn lemma_quoted_list_single(ts: Seq<Seq<char>>)
    ensures
        single_line(quoted_list(ts)),
    decreases ts.len(),
{
    reveal_strlit(",");
    if ts.len() == 1 {
        lemma_quoted_single(ts[0]);
    } else if ts.len() > 1 {
        lemma_quoted_list_single(ts.drop_last());
        lemma_quoted_single(ts.last());
        lemma_concat_single(quoted_list(ts.drop_last()), ","@);
        lemma_concat_single(quoted_list(ts.drop_last()) + ","@, json_quoted(ts.last()));
    }
}

proof fn lemma_jf_single(f: JField)
    requires
        jf_ok(f),
    ensures
        single_line(jf_text(f)),
{
    reveal_strlit(",");
    reveal_strlit(":");
    reveal_strlit("[");
    reveal_strlit("]");
    lemma_jf_shape(f);
    lemma_quoted_single(jf_name(f));
    match f {
        JField::Text(_, v) => lemma_quoted_single(v),
        JField::Int(_, i) => lemma_decimal_single(i as nat),
        JField::List(_, vs) => {
            lemma_quoted_list_single(vs);
            lemma_concat_single("["@, quoted_list(vs));
            lemma_concat_single("["@ + quoted_list(vs), "]"@);
        },
    }
    lemma_concat_single(":"@, jf_value_text(f));
    lemma_concat_single(","@, json_quoted(jf_name(f)));
    lemma_concat_single(","@ + json_quoted(jf_name(f)), ":"@ + jf_value_text(f));
}

proof fn lemma_fields_single_line(fs: Seq<JField>)
    requires
        forall|k: int| 0 <= k < fs.len() ==> jf_ok(#[trigger] fs[k]),
    ensures
        single_line(fields_text(fs)),
    decreases fs.len(),
{
    if fs.len() > 0 {
        assert(jf_ok(fs[0]));
        lemma_jf_single(fs[0]);
        assert forall|k: int| 0 <= k < fs.drop_first().len() implies jf_ok(#[trigger] fs.drop_first()[k]) by {
            assert(fs.drop_first()[k] == fs[k + 1]);
        }
        lemma_fields_single_line(fs.drop_first());
        lemma_concat_single(jf_text(fs[0]), fields_text(fs.drop_first()));
    }
}

/// A region's line: one line, opening with `{` and closing with `}`.
proof fn lemma_line_shape(r: RegionRec)
    requires
        numbers_fit(r),
    ensures
        single_line(region_json(r)),
        region_json(r).len() >= 2,
        region_json(r)[0] == '{',
        region_json(r).last() == '}',
        trim(region_json(r)) == region_json(r),
{
    reveal_strlit("{\"schema\":1");
    reveal_strlit("}");
    lemma_region_line(r);
    lemma_fields_ranked(r, 0);
    let fs = fields_from(r, 0);
    lemma_fields_single_line(fs);
    lemma_concat_single("{\"schema\":1"@, fields_text(fs));
    lemma_concat_single("{\"schema\":1"@ + fields_text(fs), "}"@);
    let t = region_json(r);
    assert(t[0] == '{');
    assert(t.last() == '}');
    assert(trim_start(t) == t);
    assert(trim_end(t) == t);
}

/// The line of a catalogue text is read back as its region.
proof fn lemma_line_record(r: RegionRec)
    requires
        catalogue_ready(r),
    ensures
        line_record(region_json(r)) == Ok::<RegionRec, Seq<char>>(r),
{
    reveal(line_record);
    lemma_region_line(r);
    lemma_fields_fresh(r);
    lemma_object(fields_from(r, 0));
    lemma_record(r);
}

pub open spec fn lines_front(rs: Seq<RegionRec>) -> Seq<char>
    decreases rs.len(),
{
    if rs.len() == 0 {
        Seq::empty()
    } else {
        region_json(rs[0]) + "\n"@ + lines_front(rs.drop_first())
    }
}

proof fn lemma_lines_front_push(rs: Seq<RegionRec>, x: RegionRec)
    ensures
        lines_front(rs.push(x)) == lines_front(rs) + region_json(x) + "\n"@,
    decreases rs.len(),
{
    if rs.len() == 0 {
        assert(rs.push(x).drop_first() =~= Seq::<RegionRec>::empty());
        assert(rs.push(x)[0] == x);
        assert(lines_front(rs.push(x).drop_first()) == Seq::<char>::empty());
        assert(lines_front(rs) == Seq::<char>::empty());
        assert(lines_front(rs.push(x)) =~= lines_front(rs) + region_json(x) + "\n"@);
    } else {
        lemma_lines_front_push(rs.drop_first(), x);
        assert(rs.push(x).drop_first() =~= rs.drop_first().push(x));
        assert(lines_front(rs.push(x)) =~= lines_front(rs) + region_json(x) + "\n"@);
    }
}

proof fn lemma_lines_of_front(rs: Seq<RegionRec>)
    ensures
        lines_of(rs) == lines_front(rs),
    decreases rs.len(),
{
    if rs.len() > 0 {
        lemma_lines_of_front(rs.drop_last());
        lemma_lines_front_push(rs.drop_last(), rs.last());
        assert(rs.drop_last().push(rs.last()) =~= rs);
    }
}

proof fn lemma_next_newline_at(s: Seq<char>, i: int, e: int)
    requires
        0 <= i <= e < s.len(),
        forall|k: int| i <= k < e ==> s[k] != '\n',
        s[e] == '\n',
    ensures
        next_newline(s, i) == e,
    decreases e - i,
{
    if i < e {
        lemma_next_newline_at(s, i + 1, e);
    }
}

pub open spec fn json_lines(rs: Seq<RegionRec>) -> Seq<Seq<char>> {
    rs.map_values(|r: RegionRec| region_json(r))
}

proof fn lemma_lines_from(s: Seq<char>, p: int, rs: Seq<RegionRec>)
    requires
        forall|k: int| 0 <= k < rs.len() ==> numbers_fit(#[trigger] rs[k]),
        holds_at(s, p, lines_front(rs)),
        p + lines_front(rs).len() == s.len(),
    ensures
        lines_from(s, p) == json_lines(rs),
    decreases rs.len(),
{
    reveal_strlit("\n");
    if rs.len() == 0 {
        assert(json_lines(rs) =~= Seq::<Seq<char>>::empty());
    } else {
        let l = region_json(rs[0]);
        assert(numbers_fit(rs[0]));
        lemma_line_shape(rs[0]);
        let rest = lines_front(rs.drop_first());
        assert(lines_front(rs) == l + "\n"@ + rest);
        assert(l + "\n"@ + rest =~= l + ("\n"@ + rest));
        lemma_holds_split(s, p, l, "\n"@ + rest);
        lemma_holds_split(s, p + l.len(), "\n"@, rest);
        lemma_holds_char(s, p + l.len(), "\n"@, 0);
        assert forall|k: int| p <= k < p + l.len() implies s[k] != '\n' by {
            lemma_holds_char(s, p, l, k - p);
        }
        lemma_next_newline_at(s, p, p + l.len());
        assert(s.subrange(p, p + l.len()) == l);
        assert(strip_cr(l) == l);
        assert forall|k: int| 0 <= k < rs.drop_first().len() implies numbers_fit(#[trigger] rs.drop_first()[k]) by {
            assert(rs.drop_first()[k] == rs[k + 1]);
        }
        lemma_lines_from(s, p + l.len() + 1, rs.drop_first());
        assert(json_lines(rs) =~= seq![l] + json_lines(rs.drop_first()));
    }
}

proof fn lemma_catalog_lines(rs: Seq<RegionRec>, path: Seq<char>, i: int)
    requires
        forall|k: int| 0 <= k < rs.len() ==> catalogue_ready(#[trigger] rs[k]),
        0 <= i <= rs.len(),
    ensures
        catalog_lines(json_lines(rs), path, i) == Ok::<Seq<RegionRec>, CatalogErrView>(rs.skip(i)),
    decreases rs.len() - i,
{
    if i == rs.len() {
        assert(rs.skip(i) =~= Seq::<RegionRec>::empty());
    } else {
        assert(catalogue_ready(rs[i]));
        lemma_line_shape(rs[i]);
        lemma_line_record(rs[i]);
        lemma_catalog_lines(rs, path, i + 1);
        assert(json_lines(rs)[i] == region_json(rs[i]));
        assert(seq![rs[i]] + rs.skip(i + 1) =~= rs.skip(i));
    }
}

// ---------------------------------------------------------------------------
// Catalogue order is stable under re-sorting.
// ---------------------------------------------------------------------------

pub open spec fn ordered(t: Seq<RegionRec>) -> bool {
    forall|i: int, j: int| 0 <= i < j < t.len() ==> !region_lt(#[trigger] t[j], #[trigger] t[i])
}

proof fn lemma_seq_asym(a: Seq<char>, b: Seq<char>)
    ensures
        !(crate::text::seq_lt(a, b) && crate::text::seq_lt(b, a)),
        !crate::text::seq_lt(a, a),
{
    crate::text::lemma_seq_lt_irrefl_eq(a, a);
    if crate::text::seq_lt(a, b) && crate::text::seq_lt(b, a) {
        crate::text::lemma_seq_lt_trans(a, b, a);
    }
}

proof fn lemma_lt_basic(a: RegionRec, b: RegionRec, c: RegionRec)
    ensures
        region_lt(a, b) || region_lt(b, a) || (a.key == b.key && a.file == b.file),
        !(region_lt(a, b) && region_lt(b, a)),
        region_lt(a, b) && region_lt(b, c) ==> region_lt(a, c),
{
    crate::text::lemma_seq_lt_total(a.key, b.key);
    crate::text::lemma_seq_lt_total(a.file, b.file);
    lemma_seq_asym(a.key, b.key);
    lemma_seq_asym(a.file, b.file);
    if region_lt(a, b) && region_lt(b, c) {
        if crate::text::seq_lt(a.key, b.key) && crate::text::seq_lt(b.key, c.key) {
            crate::text::lemma_seq_lt_trans(a.key, b.key, c.key);
        }
        if crate::text::seq_lt(a.file, b.file) && crate::text::seq_lt(b.file, c.file) {
            crate::text::lemma_seq_lt_trans(a.file, b.file, c.file);
        }
    }
}

proof fn lemma_lt_facts(a: RegionRec, b: RegionRec, c: RegionRec)
    ensures
        !(region_lt(a, b) && region_lt(b, a)),
        region_lt(a, b) && !region_lt(c, b) ==> region_lt(a, c),
        !region_lt(a, b) && !region_lt(b, c) ==> !region_lt(a, c),
{
    lemma_lt_basic(a, b, c);
    lemma_lt_basic(b, c, a);
    lemma_lt_basic(b, a, c);
    lemma_lt_basic(c, b, a);
    lemma_lt_basic(a, c, b);
}

proof fn lemma_insert_sorted_ordered(t: Seq<RegionRec>, x: RegionRec)
    requires
        ordered(t),
    ensures
        ordered(insert_sorted(t, x)),
        forall|e: RegionRec| insert_sorted(t, x).contains(e) ==> e == x || t.contains(e),
    decreases t.len(),
{
    if t.len() == 0 || !region_lt(x, t.last()) {
        let u = t.push(x);
        assert forall|i: int, j: int| 0 <= i < j < u.len() implies !region_lt(#[trigger] u[j], #[trigger] u[i]) by {
            if j == t.len() {
                if i < t.len() - 1 {
                    assert(!region_lt(t[t.len() - 1], t[i]));
                    lemma_lt_facts(x, t.last(), t[i]);
                }
            } else {
                assert(u[i] == t[i] && u[j] == t[j]);
            }
        }
        assert forall|e: RegionRec| u.contains(e) implies e == x || t.contains(e) by {
            let k = choose|k: int| 0 <= k < u.len() && u[k] == e;
            if k < t.len() {
                assert(t[k] == e);
            }
        }
    } else {
        let d = t.drop_last();
        assert forall|i: int, j: int| 0 <= i < j < d.len() implies !region_lt(#[trigger] d[j], #[trigger] d[i]) by {
            assert(d[i] == t[i] && d[j] == t[j]);
        }
        lemma_insert_sorted_ordered(d, x);
        let v = insert_sorted(d, x);
        let u = v.push(t.last());
        assert forall|i: int, j: int| 0 <= i < j < u.len() implies !region_lt(#[trigger] u[j], #[trigger] u[i]) by {
            if j == v.len() {
                let e = v[i];
                assert(v.contains(e));
                if e == x {
                    lemma_lt_facts(x, t.last(), t.last());
                } else {
                    assert(d.contains(e));
                    let k = choose|k: int| 0 <= k < d.len() && d[k] == e;
                    assert(t[k] == e);
                }
            } else {
                assert(u[i] == v[i] && u[j] == v[j]);
            }
        }
        assert forall|e: RegionRec| u.contains(e) implies e == x || t.contains(e) by {
            let k = choose|k: int| 0 <= k < u.len() && u[k] == e;
            if k < v.len() {
                assert(v.contains(e));
                if e != x {
                    assert(d.contains(e));
                    let m = choose|m: int| 0 <= m < d.len() && d[m] == e;
                    assert(t[m] == e);
                }
            } else {
                assert(t[t.len() - 1] == e);
            }
        }
    }
}

proof fn lemma_catalogue_order_ordered(rs: Seq<RegionRec>)
    ensures
        ordered(catalogue_order(rs)),
        forall|e: RegionRec| catalogue_order(rs).contains(e) ==> rs.contains(e),
    decreases rs.len(),
{
    if rs.len() > 0 {
        lemma_catalogue_order_ordered(rs.drop_last());
        lemma_insert_sorted_ordered(catalogue_order(rs.drop_last()), rs.last());
        assert forall|e: RegionRec| catalogue_order(rs).contains(e) implies rs.contains(e) by {
            if e == rs.last() {
                assert(rs[rs.len() - 1] == e);
            } else {
                assert(rs.drop_last().contains(e));
                let k = choose|k: int| 0 <= k < rs.drop_last().len() && rs.drop_last()[k] == e;
                assert(rs[k] == e);
            }
        }
    }
}

proof fn lemma_order_of_ordered(t: Seq<RegionRec>)
    requires
        ordered(t),
    ensures
        catalogue_order(t) == t,
    decreases t.len(),
{
    if t.len() > 0 {
        let d = t.drop_last();
        assert forall|i: int, j: int| 0 <= i < j < d.len() implies !region_lt(#[trigger] d[j], #[trigger] d[i]) by {
            assert(d[i] == t[i] && d[j] == t[j]);
        }
        lemma_order_of_ordered(d);
        if d.len() > 0 {
            assert(!region_lt(t[t.len() - 1], t[t.len() - 2]));
        }
        assert(d.push(t.last()) =~= t);
    }
}

/// Re-sorting a catalogue that is already in catalogue order changes
/// nothing.
proof fn lemma_order_idempotent(rs: Seq<RegionRec>)
    ensures
        catalogue_order(catalogue_order(rs)) == catalogue_order(rs),
{
    lemma_catalogue_order_ordered(rs);
    lemma_order_of_ordered(catalogue_order(rs));
}

// ---------------------------------------------------------------------------
// The law.
// ---------------------------------------------------------------------------

/// Reading back the JSONL catalogue gives the regions that were written, in
/// catalogue order (by key, then by file): every region whose numbers fit an
/// `i64`, whose symbol and documentation links are written as the scanner
/// reads them (valid identities, names and keys, no `|`, no surrounding
/// whitespace) and which holds no link twice, comes back exactly.
#[verifier::spinoff_prover]
pub proof fn law_catalogue_reads_back(rs: Seq<RegionRec>, path: Seq<char>)
    requires
        forall|k: int| 0 <= k < rs.len() ==> catalogue_ready(#[trigger] rs[k]),
    ensures
        catalog_of(lines(jsonl_of(rs)), path) == Ok::<Seq<RegionRec>, CatalogErrView>(catalogue_order(rs)),
{
    let order = catalogue_order(rs);
    lemma_catalogue_order_ordered(rs);
    assert forall|k: int| 0 <= k < order.len() implies catalogue_ready(#[trigger] order[k]) by {
        assert(order.contains(order[k]));
        assert(rs.contains(order[k]));
        let m = choose|m: int| 0 <= m < rs.len() && rs[m] == order[k];
        assert(catalogue_ready(rs[m]));
    }
    assert forall|k: int| 0 <= k < order.len() implies numbers_fit(#[trigger] order[k]) by {
        assert(catalogue_ready(order[k]));
    }
    let text = jsonl_of(rs);
    lemma_lines_of_front(order);
    assert(text == lines_front(order));
    assert(text.subrange(0, text.len() as int) =~= text);
    lemma_lines_from(text, 0, order);
    lemma_catalog_lines(order, path, 0);
    assert(order.skip(0) =~= order);
    lemma_order_idempotent(rs);
}

proof fn lemma_insert_sorted_multiset(t: Seq<RegionRec>, x: RegionRec)
    ensures
        insert_sorted(t, x).to_multiset() == t.to_multiset().insert(x),
    decreases t.len(),
{
    broadcast use vstd::seq_lib::group_to_multiset_ensures;

    if t.len() == 0 || !region_lt(x, t.last()) {
    } else {
        lemma_insert_sorted_multiset(t.drop_last(), x);
        assert(t =~= t.drop_last().push(t.last()));
        assert(t.drop_last().to_multiset().insert(x).insert(t.last()) =~= t.drop_last().to_multiset().insert(
            t.last(),
        ).insert(x));
    }
}

proof fn lemma_order_multiset(rs: Seq<RegionRec>)
    ensures
        catalogue_order(rs).to_multiset() == rs.to_multiset(),
    decreases rs.len(),
{
    broadcast use vstd::seq_lib::group_to_multiset_ensures;

    if rs.len() > 0 {
        lemma_order_multiset(rs.drop_last());
        lemma_insert_sorted_multiset(catalogue_order(rs.drop_last()), rs.last());
        assert(rs =~= rs.drop_last().push(rs.last()));
    }
}

/// No two distinct regions of the multiset share both key and file.
pub open spec fn unique_places(m: vstd::multiset::Multiset<RegionRec>) -> bool {
    forall|a: RegionRec, b: RegionRec|
        m.count(a) > 0 && m.count(b) > 0 && a.key == b.key && a.file == b.file ==> a == b
}

proof fn lemma_ordered_unique(a: Seq<RegionRec>, b: Seq<RegionRec>)
    requires
        ordered(a),
        ordered(b),
        a.to_multiset() == b.to_multiset(),
        unique_places(a.to_multiset()),
    ensures
        a == b,
    decreases a.len(),
{
    broadcast use vstd::seq_lib::group_to_multiset_ensures;

    assert(a.len() == a.to_multiset().len());
    assert(b.len() == b.to_multiset().len());
    if a.len() == 0 {
        assert(a =~= b);
    } else {
        let n = a.len() - 1;
        let x = a.last();
        let y = b.last();
        assert(a.contains(x));
        assert(a.to_multiset().count(x) > 0);
        assert(b.to_multiset().count(x) > 0);
        assert(b.contains(x));
        assert(b.contains(y));
        assert(b.to_multiset().count(y) > 0);
        assert(a.to_multiset().count(y) > 0);
        assert(a.contains(y));
        if x != y {
            let k = choose|k: int| 0 <= k < b.len() && b[k] == x;
            let m = choose|m: int| 0 <= m < a.len() && a[m] == y;
            assert(k < n && m < n);
            assert(!region_lt(b[n], b[k]));
            assert(!region_lt(a[n], a[m]));
            assert(a.to_multiset().count(x) > 0 && a.to_multiset().count(y) > 0);
            lemma_lt_basic(x, y, x);
        }
        assert(a =~= a.drop_last().push(x));
        assert(b =~= b.drop_last().push(x));
        assert(a.drop_last().to_multiset() =~= a.to_multiset().remove(x));
        assert(b.drop_last().to_multiset() =~= b.to_multiset().remove(x));
        let ad = a.drop_last();
        let bd = b.drop_last();
        assert forall|i: int, j: int| 0 <= i < j < ad.len() implies !region_lt(#[trigger] ad[j], #[trigger] ad[i]) by {
            assert(ad[j] == a[j] && ad[i] == a[i]);
        }
        assert forall|i: int, j: int| 0 <= i < j < bd.len() implies !region_lt(#[trigger] bd[j], #[trigger] bd[i]) by {
            assert(bd[j] == b[j] && bd[i] == b[i]);
        }
        assert forall|p: RegionRec, q: RegionRec|
            ad.to_multiset().count(p) > 0 && ad.to_multiset().count(q) > 0 && p.key == q.key && p.file
                == q.file implies p == q by {
            assert(a.to_multiset().count(p) > 0 && a.to_multiset().count(q) > 0);
        }
        lemma_ordered_unique(ad, bd);
    }
}

/// The JSONL catalogue does not depend on the order in which the regions
/// were found: any rearrangement of the same regions, no two distinct ones
/// sharing both key and file, renders the same text.
pub proof fn law_jsonl_order_independent(rs: Seq<RegionRec>, p: Seq<RegionRec>)
    requires
        p.to_multiset() == rs.to_multiset(),
        unique_places(rs.to_multiset()),
    ensures
        jsonl_of(p) == jsonl_of(rs),
{
    lemma_catalogue_order_ordered(rs);
    lemma_catalogue_order_ordered(p);
    lemma_order_multiset(rs);
    lemma_order_multiset(p);
    lemma_ordered_unique(catalogue_order(rs), catalogue_order(p));
}

// ---------------------------------------------------------------------------
// Scanned regions are ready for the catalogue.
// ---------------------------------------------------------------------------

/// Every character of `t` satisfies `ok`.
pub open spec fn chars_ok(t: Seq<char>, ok: spec_fn(char) -> bool) -> bool {
    forall|k: int| 0 <= k < t.len() ==> ok(#[trigger] t[k])
}

/// When every piece of a split and the separator are made of characters
/// that satisfy `ok`, so is the text that was split.
proof fn lemma_split_chars(s: Seq<char>, p: Seq<char>, start: int, ok: spec_fn(char) -> bool)
    requires
        0 <= start <= s.len(),
        p.len() > 0,
        chars_ok(p, ok),
        forall|i: int|
            0 <= i < split_from(s, p, start).len() ==> chars_ok(#[trigger] split_from(s, p, start)[i], ok),
    ensures
        forall|k: int| start <= k < s.len() ==> ok(#[trigger] s[k]),
    decreases s.len() - start,
{
    let e = next_occurrence(s, p, start);
    lemma_next_occurrence(s, p, start);
    let parts = split_from(s, p, start);
    if e >= s.len() || e + p.len() > s.len() {
        assert(parts[0] == s.subrange(start, s.len() as int));
        assert(chars_ok(parts[0], ok));
        assert forall|k: int| start <= k < s.len() implies ok(#[trigger] s[k]) by {
            assert(s.subrange(start, s.len() as int)[k - start] == s[k]);
        }
    } else {
        let rest = split_from(s, p, e + p.len());
        assert(parts == seq![s.subrange(start, e)] + rest);
        assert forall|i: int| 0 <= i < rest.len() implies chars_ok(#[trigger] rest[i], ok) by {
            assert(parts[i + 1] == rest[i]);
        }
        lemma_split_chars(s, p, e + p.len(), ok);
        assert(parts[0] == s.subrange(start, e));
        assert(chars_ok(parts[0], ok));
        assert(occurs_at(s, e, p));
        assert forall|k: int| start <= k < s.len() implies ok(#[trigger] s[k]) by {
            if k < e {
                assert(s.subrange(start, e)[k - start] == s[k]);
            } else if k < e + p.len() {
                assert(s.subrange(e, e + p.len())[k - e] == s[k]);
                assert(ok(p[k - e]));
            }
        }
    }
}

/// A character of an identity, a name or a key.
pub open spec fn plain_char(c: char) -> bool {
    ascii_alnum(c) || c == '_' || c == ':' || c == '.' || c == '-'
}

/// A text of plain characters is bare.
proof fn lemma_plain_bare(t: Seq<char>)
    requires
        chars_ok(t, |c: char| plain_char(c)),
    ensures
        bare(t),
{
    let ok = |c: char| plain_char(c);
    if t.len() > 0 {
        assert(ok(t[0]));
        assert(ok(t[t.len() - 1]));
        assert(!is_ws(t[0]));
        assert(!is_ws(t.last()));
        assert(trim_start(t) == t);
        assert(trim_end(t) == t);
    } else {
        assert(trim_start(t) == t);
        assert(trim_end(t) == t);
    }
    assert forall|k: int| 0 <= k < t.len() implies t[k] != '|' by {
        assert(ok(t[k]));
    }
}

proof fn lemma_name_plain(v: Seq<char>)
    requires
        symbol_name_spec(v),
    ensures
        chars_ok(v, |c: char| plain_char(c)),
{
    let ok = |c: char| plain_char(c);
    assert forall|k: int| 0 <= k < v.len() implies ok(#[trigger] v[k]) by {
        if k > 0 {
            assert(ascii_alnum(v[k]) || v[k] == '_');
        }
    }
}

proof fn lemma_identity_plain(v: Seq<char>)
    requires
        symbol_identity_spec(v),
    ensures
        chars_ok(v, |c: char| plain_char(c)),
{
    let ok = |c: char| plain_char(c);
    let segs = split(v, path_sep());
    assert forall|i: int| 0 <= i < segs.len() implies chars_ok(#[trigger] segs[i], ok) by {
        assert(symbol_name_spec(segs[i]));
        lemma_name_plain(segs[i]);
    }
    assert(path_sep() == seq![':', ':']);
    assert(chars_ok(path_sep(), ok));
    lemma_split_chars(v, path_sep(), 0, ok);
}

proof fn lemma_key_plain(v: Seq<char>)
    requires
        valid_key_spec(v),
    ensures
        chars_ok(v, |c: char| plain_char(c)),
{
    let ok = |c: char| plain_char(c);
    assert forall|k: int| 0 <= k < v.len() implies ok(#[trigger] v[k]) by {
        assert(key_alnum(v[k]) || key_sep(v[k]));
    }
}

/// A well-formed symbol binding declares a symbol the catalogue carries.
proof fn lemma_binding_ready(v: Seq<char>)
    requires
        symbol_ok(v),
    ensures
        sym_ready(symbol_of(v)),
{
    let p = binding_parts(v);
    lemma_identity_plain(p[0]);
    lemma_plain_bare(p[0]);
    lemma_name_plain(p[1]);
    lemma_plain_bare(p[1]);
}

/// A well-formed documentation link is one the catalogue carries.
proof fn lemma_doc_link_ready(v: Seq<char>)
    requires
        symbol_doc_ok(v),
    ensures
        doc_ready(doc_of(v)),
{
    let p = binding_parts(v);
    lemma_identity_plain(p[0]);
    lemma_plain_bare(p[0]);
    lemma_key_plain(p[1]);
    lemma_plain_bare(p[1]);
}

proof fn lemma_push_fresh<T>(s: Seq<T>, x: T)
    requires
        !has_dup(s),
        !s.contains(x),
    ensures
        !has_dup(s.push(x)),
{
    let t = s.push(x);
    assert forall|i: int, j: int| 0 <= i < j < t.len() implies t[i] != t[j] by {
        assert(t[i] == s[i]);
        if j < s.len() {
            assert(t[j] == s[j]);
            if s[i] == s[j] {
                assert(has_dup(s));
            }
        } else {
            assert(t[j] == x);
            if s[i] == x {
                assert(s.contains(x));
            }
        }
    }
}

/// The links of an open region are ready for the catalogue.
pub open spec fn open_ready(o: OpenView) -> bool {
    &&& forall|k: int| 0 <= k < o.symbols.len() ==> sym_ready(#[trigger] o.symbols[k])
    &&& forall|k: int| 0 <= k < o.docs.len() ==> doc_ready(#[trigger] o.docs[k])
    &&& all_identities(o.related)
    &&& all_identities(o.test_for)
    &&& !has_dup(o.symbols)
    &&& !has_dup(o.docs)
    &&& !has_dup(o.related)
    &&& !has_dup(o.test_for)
}

pub open spec fn stack_ready(st: Seq<OpenView>) -> bool {
    forall|i: int| 0 <= i < st.len() ==> open_ready(#[trigger] st[i])
}

/// A region whose phase, if any, fits an `i64`.
pub open spec fn phase_fits(r: RegionRec) -> bool {
    r.phase matches Some(p) ==> p <= i64::MAX
}

/// The regions from position `p` on whose phase fits are ready for the
/// catalogue.
pub open spec fn ready_from(rs: Seq<RegionRec>, p: int) -> bool {
    forall|i: int| p <= i < rs.len() ==> (phase_fits(#[trigger] rs[i]) ==> catalogue_ready(rs[i]))
}

proof fn lemma_list_push_ready(o: OpenView, o2: OpenView, field: Seq<char>, value: Seq<char>)
    requires
        open_ready(o),
        o2.symbols == o.symbols,
        o2.docs == o.docs,
        field == "related-symbol"@ ==> o2.test_for == o.test_for && o2.related == o.related.push(value),
        field != "related-symbol"@ ==> o2.related == o.related && o2.test_for == o.test_for.push(value),
        symbol_identity_spec(value),
        field == "related-symbol"@ ==> !o.related.contains(value),
        field != "related-symbol"@ ==> !o.test_for.contains(value),
    ensures
        open_ready(o2),
{
    if field == "related-symbol"@ {
        lemma_push_fresh(o.related, value);
        assert forall|k: int| 0 <= k < o2.related.len() implies symbol_identity_spec(#[trigger] o2.related[k]) by {
            if k < o.related.len() {
                assert(o2.related[k] == o.related[k]);
            }
        }
    } else {
        lemma_push_fresh(o.test_for, value);
        assert forall|k: int| 0 <= k < o2.test_for.len() implies symbol_identity_spec(#[trigger] o2.test_for[k]) by {
            if k < o.test_for.len() {
                assert(o2.test_for[k] == o.test_for[k]);
            }
        }
    }
}

#[verifier::spinoff_prover]
proof fn lemma_meta_ready(o: OpenView, file: Seq<char>, field: Seq<char>, value: Seq<char>)
    requires
        open_ready(o),
    ensures
        open_ready(meta_applied(o, file, field, value).0),
{
    let o2 = meta_applied(o, file, field, value).0;
    if field == "domain"@ || field == "layer"@ || field == "summary"@ || field == "kind"@ || field
        == "status"@ || field == "phase"@ {
        assert(o2.symbols == o.symbols && o2.docs == o.docs && o2.related == o.related && o2.test_for
            == o.test_for);
    } else if field == "symbol"@ {
        if symbol_ok(value) && !o.symbols.contains(symbol_of(value)) {
            lemma_binding_ready(value);
            lemma_push_fresh(o.symbols, symbol_of(value));
            assert(o2.symbols == o.symbols.push(symbol_of(value)));
            assert forall|k: int| 0 <= k < o2.symbols.len() implies sym_ready(#[trigger] o2.symbols[k]) by {
                if k < o.symbols.len() {
                    assert(o2.symbols[k] == o.symbols[k]);
                }
            }
        }
    } else if field == "related-symbol"@ {
        if symbol_identity_spec(value) && !o.related.contains(value) {
            lemma_list_push_ready(o, o2, field, value);
        }
    } else if field == "test-for"@ {
        if symbol_identity_spec(value) && !o.test_for.contains(value) {
            lemma_list_push_ready(o, o2, field, value);
        }
    } else if field == "symbol-doc"@ {
        if symbol_doc_ok(value) && !o.docs.contains(doc_of(value)) {
            lemma_doc_link_ready(value);
            lemma_push_fresh(o.docs, doc_of(value));
            assert(o2.docs == o.docs.push(doc_of(value)));
            assert forall|k: int| 0 <= k < o2.docs.len() implies doc_ready(#[trigger] o2.docs[k]) by {
                if k < o.docs.len() {
                    assert(o2.docs[k] == o.docs[k]);
                }
            }
        }
    }
}

/// A region closed at line `n` from an open region whose links are ready.
proof fn lemma_closed_ready(o: OpenView, file: Seq<char>, n: int, bound: int)
    requires
        1 <= n <= bound,
        bound <= i64::MAX,
        bound <= usize::MAX,
        open_ok(o, n - 1),
        open_ready(o),
        o.content_start is Some,
    ensures
        phase_fits(closed_rec(o, file, n)) ==> catalogue_ready(closed_rec(o, file, n)),
{
    let r = closed_rec(o, file, n);
    assert(numbers_fit(r) <== phase_fits(r));
}

proof fn lemma_new_open_ready(key: Seq<char>, n: int)
    ensures
        open_ready(new_open(key, n)),
{
}

#[verifier::spinoff_prover]
proof fn lemma_line_effect_ready(
    file: Seq<char>,
    st: ScanView,
    n: int,
    raw: Seq<char>,
    m: Option<Seq<char>>,
    p: int,
    bound: int,
)
    requires
        1 <= n <= bound,
        bound <= i64::MAX,
        bound <= usize::MAX,
        stack_ok(st.stack, n - 1),
        stack_ready(st.stack),
        0 <= p <= st.index.regions.len(),
        ready_from(st.index.regions, p),
    ensures
        stack_ready(line_effect(file, st, n, raw, m).stack),
        ready_from(line_effect(file, st, n, raw, m).index.regions, p),
{
    let e = line_effect(file, st, n, raw, m);
    let start = match m {
        Some(c) => parse_marker_spec(c, START@),
        None => None,
    };
    let end = match m {
        Some(c) => parse_marker_spec(c, END@),
        None => None,
    };
    if start is Some {
        let ns = st.stack.push(new_open(start->0, n));
        lemma_new_open_ready(start->0, n);
        assert forall|i: int| 0 <= i < ns.len() implies open_ready(#[trigger] ns[i]) by {
            if i < st.stack.len() {
                assert(ns[i] == st.stack[i]);
            }
        }
        assert(e.stack == ns);
        assert(e.index.regions == st.index.regions);
    } else if end is Some {
        if st.stack.len() > 0 {
            let o = st.stack.last();
            assert(open_ok(o, n - 1));
            assert(open_ready(o));
            let ds = st.stack.drop_last();
            assert forall|i: int| 0 <= i < ds.len() implies open_ready(#[trigger] ds[i]) by {
                assert(ds[i] == st.stack[i]);
            }
            let f = finished(st.index, o, file, end->0, n);
            if o.content_start is Some && !o.invalid {
                let r = closed_rec(o, file, n);
                assert(f.regions == st.index.regions.push(r));
                lemma_closed_ready(o, file, n, bound);
                assert forall|i: int| p <= i < f.regions.len() && phase_fits(#[trigger] f.regions[i]) implies catalogue_ready(
                    f.regions[i],
                ) by {
                    if i < st.index.regions.len() {
                        assert(f.regions[i] == st.index.regions[i]);
                    }
                }
            } else {
                assert(f.regions == st.index.regions);
            }
        } else {
            assert(e.index.regions == st.index.regions);
        }
    } else if st.stack.len() > 0 {
        let o = st.stack.last();
        assert(open_ready(o));
        let meta = match m {
            Some(c) => parse_meta_spec(c),
            None => None,
        };
        let o2 = if o.in_meta && meta is Some {
            lemma_meta_ready(o, file, (meta->0).0, (meta->0).1);
            meta_applied(o, file, (meta->0).0, (meta->0).1).0
        } else {
            body_line(o, n, raw)
        };
        assert(open_ready(o2));
        let ns = st.stack.drop_last().push(o2);
        assert forall|i: int| 0 <= i < ns.len() implies open_ready(#[trigger] ns[i]) by {
            if i < st.stack.len() - 1 {
                assert(ns[i] == st.stack[i]);
            }
        }
        assert(e.stack == ns);
        assert(e.index.regions == st.index.regions);
    }
}

proof fn lemma_scan_lines_ready(
    file: Seq<char>,
    ls: Seq<Seq<char>>,
    st: ScanView,
    lex: DialectState,
    n0: int,
    p: int,
    bound: int,
)
    requires
        0 <= n0,
        n0 + ls.len() <= bound,
        bound <= i64::MAX,
        bound <= usize::MAX,
        stack_ok(st.stack, n0),
        stack_ready(st.stack),
        0 <= p <= st.index.regions.len(),
        ready_from(st.index.regions, p),
    ensures
        ready_from(scan_lines(file, ls, st, lex, n0).index.regions, p),
    decreases ls.len(),
{
    if ls.len() > 0 {
        let (m, lex2) = next_marker_spec(ls[0], lex);
        let st2 = line_effect(file, st, n0 + 1, ls[0], m);
        lemma_line_effect_ok(file, st, n0 + 1, ls[0], m, st.index.regions.len() as int);
        lemma_line_effect_ready(file, st, n0 + 1, ls[0], m, p, bound);
        lemma_scan_lines_ready(file, ls.drop_first(), st2, lex2, n0 + 1, p, bound);
    }
}

/// Every region that scanning a file adds to the index, and whose phase fits
/// an `i64`, is one the catalogue carries exactly: its line numbers fit, its
/// symbol and documentation links are written as the scanner reads them, and
/// it holds no link twice.
pub proof fn law_scanned_regions_catalogue_ready(ix: IndexView, file: Seq<char>, ls: Seq<Seq<char>>, d: MarkerDialect)
    requires
        ls.len() <= i64::MAX,
        ls.len() <= usize::MAX,
    ensures
        ({
            let out = scanned(ix, file, ls, d);
            forall|i: int|
                ix.regions.len() <= i < out.regions.len() ==> (phase_fits(#[trigger] out.regions[i])
                    ==> catalogue_ready(out.regions[i]))
        }),
{
    let st = ScanView { stack: Seq::empty(), index: ix };
    lemma_scan_lines_ready(file, ls, st, crate::nav_scan::dialect_start(d), 0, ix.regions.len() as int, ls.len() as int);
}

/// Scanning a file into an index whose regions the catalogue carries, and
/// reading back the JSONL catalogue written from the result, gives the
/// regions of the index in catalogue order, provided that every phase fits
/// an `i64`.
pub proof fn law_scanned_catalogue_reads_back(
    ix: IndexView,
    file: Seq<char>,
    ls: Seq<Seq<char>>,
    d: MarkerDialect,
    path: Seq<char>,
)
    requires
        forall|k: int| 0 <= k < ix.regions.len() ==> catalogue_ready(#[trigger] ix.regions[k]),
        ls.len() <= i64::MAX,
        ls.len() <= usize::MAX,
        forall|k: int|
            0 <= k < scanned(ix, file, ls, d).regions.len() ==> phase_fits(
                #[trigger] scanned(ix, file, ls, d).regions[k],
            ),
    ensures
        ({
            let rs = scanned(ix, file, ls, d).regions;
            catalog_of(lines(jsonl_of(rs)), path) == Ok::<Seq<RegionRec>, CatalogErrView>(catalogue_order(rs))
        }),
{
    let out = scanned(ix, file, ls, d);
    law_scanned_regions_well_placed(ix, file, ls, d);
    law_scanned_regions_catalogue_ready(ix, file, ls, d);
    assert forall|k: int| 0 <= k < out.regions.len() implies catalogue_ready(#[trigger] out.regions[k]) by {
        if k < ix.regions.len() {
            assert(out.regions[k] == out.regions.take(ix.regions.len() as int)[k]);
            assert(out.regions[k] == ix.regions[k]);
        } else {
            assert(phase_fits(out.regions[k]));
        }
    }
    law_catalogue_reads_back(out.regions, path);
}


/// The JSONL catalogue holds exactly one line per region: its lines are the
/// JSON objects of the regions in catalogue order, each on a line of its
/// own, that order holds every region once and sorts them by key, then by
/// file. Every number of the regions fits an `i64`.
pub proof fn law_jsonl_one_line_per_region(rs: Seq<RegionRec>)
    requires
        forall|k: int| 0 <= k < rs.len() ==> numbers_fit(#[trigger] rs[k]),
    ensures
        lines(jsonl_of(rs)) == json_lines(catalogue_order(rs)),
        lines(jsonl_of(rs)).len() == rs.len(),
        catalogue_order(rs).to_multiset() == rs.to_multiset(),
        ordered(catalogue_order(rs)),
        forall|k: int| 0 <= k < rs.len() ==> single_line(#[trigger] lines(jsonl_of(rs))[k]),
{
    broadcast use vstd::seq_lib::group_to_multiset_ensures;

    let order = catalogue_order(rs);
    lemma_catalogue_order_ordered(rs);
    lemma_order_multiset(rs);
    vstd::seq_lib::to_multiset_len(order);
    vstd::seq_lib::to_multiset_len(rs);
    assert forall|k: int| 0 <= k < order.len() implies numbers_fit(#[trigger] order[k]) by {
        assert(order.contains(order[k]));
        assert(rs.contains(order[k]));
        let m = choose|m: int| 0 <= m < rs.len() && rs[m] == order[k];
        assert(numbers_fit(rs[m]));
    }
    let text = jsonl_of(rs);
    lemma_lines_of_front(order);
    assert(text.subrange(0, text.len() as int) =~= text);
    lemma_lines_from(text, 0, order);
    assert forall|k: int| 0 <= k < rs.len() implies single_line(#[trigger] lines(jsonl_of(rs))[k]) by {
        assert(numbers_fit(order[k]));
        lemma_line_shape(order[k]);
    }
}

} // verus!
