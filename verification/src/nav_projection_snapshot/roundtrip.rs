//! The canonical texts read back as the models they render: parsing the
//! rendering of a parsed snapshot, or of a parsed recipe, gives the same
//! model, and rendering it again gives the same text.
use super::parser::{
    check_hash, check_known, hash_well_formed, header_of, hex_digit_value, hex_value, id_safe, is_hex_lower,
    budgets_check, conflict_from, count_materializations, count_overrides, insert_rule, pair_conflict,
    recipes_checked, recon_of, reconstruction_keys, rule_admitted, rule_after, rules_admitted, rules_check,
    snapshot_of, parse_spec, ReconView,
    measures_keys, measures_of, op_keys, root_keys, rule_keys, rule_of, rules_built, sorted_rules, unknown_key,
};
use super::toml::table_get;
use super::{rule_op, rule_rank, rule_selector, rule_is_override, rule_is_exclusion, state_name, Measures, RuleView, SnapshotView, SchemaAuthority, FailureView};
use super::render::{int_line, opt_line, render_text, rule_body, rules_text, text_line};
use crate::nav::fnv_canonical;
use crate::nav_projection_recipe::{
    forbidden_field, recipe_budgets, recipe_of, recipe_reconstruction_keys, recipe_root_keys, recipe_rules,
    recipe_schema, recipe_spec, recipe_text, steps_checked, RecipeView,
};
use super::render::{escape_char, escaped, quoted, recipe_list};
use super::toml::{
    first_index, has_key, insert_pair, line_step, list_items, list_value, quoted_value, read_lines,
    token_of, token_value, unescape, value_of, DocView, ScalarView, Section,
};
use crate::native_symbol::{digits_value, is_digit, lemma_decimal_digits, lemma_digits_value_decimal};
use crate::text::{
    all_ws, decimal, has_prefix, is_ws, lines_from, next_newline, next_occurrence, occurs_at,
    split, split_from, strip_cr, trim, trim_end, trim_start,
};
use vstd::prelude::*;

verus! {

// ---------------------------------------------------------------------------
// Lines.
// ---------------------------------------------------------------------------

/// The lines, each followed by a line break.
pub open spec fn joined(ls: Seq<Seq<char>>) -> Seq<char>
    decreases ls.len(),
{
    if ls.len() == 0 {
        Seq::empty()
    } else {
        ls[0] + "\n"@ + joined(ls.drop_first())
    }
}

pub broadcast proof fn lemma_joined_concat(a: Seq<Seq<char>>, b: Seq<Seq<char>>)
    ensures
        #[trigger] joined(a + b) == joined(a) + joined(b),
    decreases a.len(),
{
    if a.len() == 0 {
        assert(a + b =~= b);
        assert(joined(a) + joined(b) =~= joined(b));
    } else {
        lemma_joined_concat(a.drop_first(), b);
        assert((a + b).drop_first() =~= a.drop_first() + b);
        assert((a + b)[0] == a[0]);
        assert(joined(a + b) =~= joined(a) + joined(b));
    }
}

/// A line that `str::lines` gives back as it is.
pub open spec fn plain_line(l: Seq<char>) -> bool {
    &&& forall|k: int| 0 <= k < l.len() ==> l[k] != '\n'
    &&& (l.len() == 0 || l.last() != '\r')
}

proof fn lemma_next_newline_at(s: Seq<char>, i: int, e: int)
    requires
        0 <= i <= e < s.len(),
        forall|k: int| i <= k < e ==> s[k] != '\n',
        s[e] == '\n',
    ensures
        next_newline(s, i) == e,
    decreases e - i,
{
    if i < e {
        lemma_next_newline_at(s, i + 1, e);
    }
}

proof fn lemma_lines_joined(s: Seq<char>, p: int, ls: Seq<Seq<char>>)
    requires
        0 <= p <= s.len(),
        s.subrange(p, s.len() as int) == joined(ls),
        forall|k: int| 0 <= k < ls.len() ==> plain_line(#[trigger] ls[k]),
    ensures
        lines_from(s, p) == ls,
    decreases ls.len(),
{
    reveal_strlit("\n");
    if ls.len() == 0 {
        assert(s.subrange(p, s.len() as int).len() == 0);
    } else {
        let l = ls[0];
        assert(plain_line(l));
        let rest = joined(ls.drop_first());
        let t = s.subrange(p, s.len() as int);
        assert(t == l + "\n"@ + rest);
        assert forall|k: int| p <= k < p + l.len() implies s[k] != '\n' by {
            assert(t[k - p] == s[k]);
            assert(t[k - p] == l[k - p]);
        }
        assert(t[l.len() as int] == '\n');
        assert(s[p + l.len()] == '\n');
        lemma_next_newline_at(s, p, p + l.len());
        assert(s.subrange(p, p + l.len()) =~= l);
        assert(strip_cr(l) == l);
        assert(t.len() == l.len() + 1 + rest.len());
        assert forall|k: int| 0 <= k < rest.len() implies #[trigger] s.subrange(p + l.len() + 1, s.len() as int)[k]
            == rest[k] by {
            assert(t[l.len() + 1 + k] == rest[k]);
            assert(t[l.len() + 1 + k] == s[p + l.len() + 1 + k]);
        }
        assert(s.subrange(p + l.len() + 1, s.len() as int) =~= rest);
        assert forall|k: int| 0 <= k < ls.drop_first().len() implies plain_line(#[trigger] ls.drop_first()[k]) by {
            assert(ls.drop_first()[k] == ls[k + 1]);
        }
        lemma_lines_joined(s, p + l.len() + 1, ls.drop_first());
        assert(ls =~= seq![l] + ls.drop_first());
    }
}

/// The lines of a text made of plain lines are those lines.
pub proof fn lemma_lines_of_joined(ls: Seq<Seq<char>>)
    requires
        forall|k: int| 0 <= k < ls.len() ==> plain_line(#[trigger] ls[k]),
    ensures
        crate::text::lines(joined(ls)) == ls,
{
    let s = joined(ls);
    assert(s.subrange(0, s.len() as int) =~= s);
    lemma_lines_joined(s, 0, ls);
}

// ---------------------------------------------------------------------------
// Trimming.
// ---------------------------------------------------------------------------

proof fn lemma_trim_start_ws(a: Seq<char>, y: Seq<char>)
    requires
        all_ws(a),
        y.len() == 0 || !is_ws(y[0]),
    ensures
        trim_start(a + y) == y,
    decreases a.len(),
{
    if a.len() == 0 {
        assert(a + y =~= y);
    } else {
        assert((a + y)[0] == a[0]);
        assert((a + y).drop_first() =~= a.drop_first() + y);
        lemma_trim_start_ws(a.drop_first(), y);
    }
}

proof fn lemma_trim_end_ws(y: Seq<char>, b: Seq<char>)
    requires
        all_ws(b),
        y.len() == 0 || !is_ws(y.last()),
    ensures
        trim_end(y + b) == y,
    decreases b.len(),
{
    if b.len() == 0 {
        assert(y + b =~= y);
    } else {
        assert((y + b).last() == b.last());
        assert((y + b).drop_last() =~= y + b.drop_last());
        lemma_trim_end_ws(y, b.drop_last());
    }
}

/// Trimming removes exactly the whitespace around a text that neither starts
/// nor ends with whitespace.
pub proof fn lemma_trim_pad(a: Seq<char>, x: Seq<char>, b: Seq<char>)
    requires
        all_ws(a),
        all_ws(b),
        x.len() > 0,
        !is_ws(x[0]),
        !is_ws(x.last()),
    ensures
        trim(a + x + b) == x,
{
    assert(a + x + b =~= a + (x + b));
    assert((x + b)[0] == x[0]);
    lemma_trim_start_ws(a, x + b);
    lemma_trim_end_ws(x, b);
}

proof fn lemma_trim_same(x: Seq<char>)
    requires
        x.len() > 0,
        !is_ws(x[0]),
        !is_ws(x.last()),
    ensures
        trim(x) == x,
{
    let e = Seq::<char>::empty();
    assert(e + x + e =~= x);
    lemma_trim_pad(e, x, e);
}

// ---------------------------------------------------------------------------
// Values.
// ---------------------------------------------------------------------------

proof fn lemma_escaped_front(t: Seq<char>)
    requires
        t.len() > 0,
    ensures
        escaped(t) == escape_char(t[0]) + escaped(t.drop_first()),
    decreases t.len(),
{
    if t.len() == 1 {
        assert(t.drop_last() =~= Seq::<char>::empty());
        assert(t.drop_first() =~= Seq::<char>::empty());
        assert(escaped(t) =~= escape_char(t[0]) + escaped(t.drop_first()));
    } else {
        lemma_escaped_front(t.drop_last());
        assert(t.drop_last().drop_first() =~= t.drop_first().drop_last());
        assert(t.drop_first().last() == t.last());
        assert(escaped(t) =~= escape_char(t[0]) + escaped(t.drop_first()));
    }
}

proof fn lemma_quoted_rest(rest: Seq<char>, i: int, acc: Seq<char>, s: Seq<char>)
    requires
        0 <= i <= rest.len(),
        rest.subrange(i, rest.len() as int) == escaped(s) + seq!['"'],
    ensures
        quoted_value(rest, i, acc) == Ok::<ScalarView, Seq<char>>(ScalarView::Text(acc + s)),
    decreases s.len(),
{
    let r = rest.subrange(i, rest.len() as int);
    if s.len() == 0 {
        assert(escaped(s) == Seq::<char>::empty());
        assert(r[0] == '"');
        assert(rest[i] == '"');
        assert(rest.subrange(i + 1, rest.len() as int).len() == 0);
        assert(trim(rest.subrange(i + 1, rest.len() as int)) == Seq::<char>::empty());
        assert(acc + s =~= acc);
    } else {
        let c = s[0];
        lemma_escaped_front(s);
        let e = escape_char(c);
        let tail = escaped(s.drop_first()) + seq!['"'];
        assert(r =~= e + tail);
        assert(r.len() == rest.len() - i);
        assert forall|k: int| 0 <= k < r.len() implies #[trigger] r[k] == rest[i + k] by {}
        if c == '"' || c == '\\' || c == '\n' || c == '\r' || c == '\t' {
            assert(e.len() == 2);
            assert(rest[i] == r[0] && r[0] == '\\');
            assert(rest[i + 1] == r[1]);
            assert(unescape(r[1]) == Some(c));
            assert forall|k: int| 0 <= k < tail.len() implies #[trigger] rest.subrange(i + 2, rest.len() as int)[k]
                == tail[k] by {
                assert(r[2 + k] == tail[k]);
            }
            assert(rest.subrange(i + 2, rest.len() as int) =~= tail);
            lemma_quoted_rest(rest, i + 2, acc.push(c), s.drop_first());
        } else {
            assert(e == seq![c]);
            assert(rest[i] == r[0] && r[0] == c);
            assert forall|k: int| 0 <= k < tail.len() implies #[trigger] rest.subrange(i + 1, rest.len() as int)[k]
                == tail[k] by {
                assert(r[1 + k] == tail[k]);
            }
            assert(rest.subrange(i + 1, rest.len() as int) =~= tail);
            lemma_quoted_rest(rest, i + 1, acc.push(c), s.drop_first());
        }
        assert(acc.push(c) + s.drop_first() =~= acc + s);
    }
}

/// A quoted text reads back as the text.
pub proof fn lemma_value_quoted(s: Seq<char>)
    ensures
        value_of(quoted(s)) == Ok::<ScalarView, Seq<char>>(ScalarView::Text(s)),
{
    let q = quoted(s);
    assert(q[0] == '"');
    let rest = q.drop_first();
    assert(rest =~= escaped(s) + seq!['"']);
    assert(rest.subrange(0, rest.len() as int) =~= rest);
    lemma_quoted_rest(rest, 0, Seq::empty(), s);
    assert(Seq::<char>::empty() + s =~= s);
}

/// A decimal integer reads back as the integer.
pub proof fn lemma_value_decimal(n: u64)
    ensures
        value_of(decimal(n as nat)) == Ok::<ScalarView, Seq<char>>(ScalarView::Integer(n)),
{
    let t = decimal(n as nat);
    lemma_decimal_digits(n as nat);
    lemma_digits_value_decimal(n as nat);
    assert(is_digit(t[0]));
    assert(!t.contains('#')) by {
        if t.contains('#') {
            let k = choose|k: int| 0 <= k < t.len() && t[k] == '#';
            assert(is_digit(t[k]));
        }
    }
    assert(token_of(t) == t);
}

/// A text made of identifier characters needs no escape.
pub open spec fn no_escape(r: Seq<char>) -> bool {
    forall|k: int| 0 <= k < r.len() ==> #[trigger] r[k] != '"' && r[k] != '\\' && r[k] != '\n' && r[k]
        != '\r' && r[k] != '\t' && r[k] != ',' && !is_ws(r[k])
}

proof fn lemma_escaped_plain(r: Seq<char>)
    requires
        no_escape(r),
    ensures
        escaped(r) == r,
    decreases r.len(),
{
    if r.len() > 0 {
        assert(no_escape(r.drop_last())) by {
            assert forall|k: int| 0 <= k < r.drop_last().len() implies #[trigger] r.drop_last()[k] != '"'
                && r.drop_last()[k] != '\\' && r.drop_last()[k] != '\n' && r.drop_last()[k] != '\r'
                && r.drop_last()[k] != '\t' && r.drop_last()[k] != ',' && !is_ws(r.drop_last()[k]) by {
                assert(r.drop_last()[k] == r[k]);
            }
        }
        lemma_escaped_plain(r.drop_last());
        assert(r[r.len() - 1] == r.last());
        assert(escape_char(r.last()) == seq![r.last()]);
        assert(r =~= r.drop_last().push(r.last()));
    }
}

pub proof fn lemma_id_no_escape(r: Seq<char>)
    requires
        id_safe(r),
    ensures
        no_escape(r),
{
    assert forall|k: int| 0 <= k < r.len() implies #[trigger] r[k] != '"' && r[k] != '\\' && r[k] != '\n'
        && r[k] != '\r' && r[k] != '\t' && r[k] != ',' && !is_ws(r[k]) by {
        assert(super::parser::id_alnum(r[k]) || super::parser::id_separator(r[k]));
    }
}


// ---------------------------------------------------------------------------
// Lists of identifiers.
// ---------------------------------------------------------------------------

pub open spec fn comma() -> Seq<char> {
    seq![',']
}

proof fn lemma_occurs_comma(s: Seq<char>, i: int)
    requires
        0 <= i < s.len(),
    ensures
        occurs_at(s, i, comma()) <==> s[i] == ',',
{
    if s[i] == ',' {
        assert(s.subrange(i, i + 1) =~= comma());
    }
    if occurs_at(s, i, comma()) {
        assert(s.subrange(i, i + 1)[0] == s[i]);
    }
}

proof fn lemma_no_comma_from(s: Seq<char>, i: int)
    requires
        0 <= i <= s.len(),
        forall|k: int| i <= k < s.len() ==> s[k] != ',',
    ensures
        next_occurrence(s, comma(), i) == s.len(),
    decreases s.len() - i,
{
    if i < s.len() {
        lemma_occurs_comma(s, i);
        lemma_no_comma_from(s, i + 1);
    }
}

proof fn lemma_next_comma_prefix(x: Seq<char>, y: Seq<char>, i: int)
    requires
        0 <= i <= x.len(),
    ensures
        ({
            let ex = next_occurrence(x, comma(), i);
            next_occurrence(x + comma() + y, comma(), i) == (if ex < x.len() {
                ex
            } else {
                x.len() as int
            })
        }),
    decreases x.len() - i,
{
    let s = x + comma() + y;
    if i == x.len() {
        assert(s[i] == ',');
        lemma_occurs_comma(s, i);
    } else {
        assert(s[i] == x[i]);
        lemma_occurs_comma(s, i);
        lemma_occurs_comma(x, i);
        lemma_next_comma_prefix(x, y, i + 1);
    }
}

proof fn lemma_split_append(x: Seq<char>, y: Seq<char>, start: int)
    requires
        0 <= start <= x.len(),
        forall|k: int| 0 <= k < y.len() ==> y[k] != ',',
    ensures
        split_from(x + comma() + y, comma(), start) == split_from(x, comma(), start) + seq![y],
    decreases x.len() - start,
{
    let s = x + comma() + y;
    lemma_next_comma_prefix(x, y, start);
    crate::text::lemma_next_occurrence(x, comma(), start);
    let ex = next_occurrence(x, comma(), start);
    if ex < x.len() {
        assert(s.subrange(start, ex) =~= x.subrange(start, ex));
        lemma_split_append(x, y, ex + 1);
        assert(split_from(x, comma(), start) == seq![x.subrange(start, ex)] + split_from(x, comma(), ex + 1));
        assert(split_from(s, comma(), start) == seq![s.subrange(start, ex)] + split_from(s, comma(), ex + 1));
        assert(split_from(s, comma(), start) =~= split_from(x, comma(), start) + seq![y]);
    } else {
        let q: int = x.len() as int + 1;
        assert forall|k: int| q <= k < s.len() implies s[k] != ',' by {
            assert(s[k] == y[k - q]);
        }
        lemma_no_comma_from(s, q);
        assert(s.subrange(q, s.len() as int) =~= y);
        assert(split_from(s, comma(), q) == seq![y]);
        assert(s.subrange(start, x.len() as int) =~= x.subrange(start, x.len() as int));
        assert(split_from(x, comma(), start) == seq![x.subrange(start, x.len() as int)]);
        assert(split_from(s, comma(), start) =~= split_from(x, comma(), start) + seq![y]);
    }
}

/// The pieces a list of quoted identifiers splits into at its commas.
pub open spec fn pieces(rs: Seq<Seq<char>>) -> Seq<Seq<char>>
    decreases rs.len(),
{
    if rs.len() <= 1 {
        rs.map_values(|r: Seq<char>| quoted(r))
    } else {
        pieces(rs.drop_last()).push(" "@ + quoted(rs.last()))
    }
}

proof fn lemma_quoted_plain(r: Seq<char>)
    requires
        no_escape(r),
    ensures
        quoted(r) == seq!['"'] + r + seq!['"'],
        forall|k: int| 0 <= k < quoted(r).len() ==> quoted(r)[k] != ',',
{
    lemma_escaped_plain(r);
    assert forall|k: int| 0 <= k < quoted(r).len() implies quoted(r)[k] != ',' by {
        if 0 < k < quoted(r).len() - 1 {
            assert(quoted(r)[k] == r[k - 1]);
        }
    }
}

pub open spec fn all_ids(rs: Seq<Seq<char>>) -> bool {
    forall|k: int| 0 <= k < rs.len() ==> id_safe(#[trigger] rs[k])
}

proof fn lemma_recipe_list_shape(rs: Seq<Seq<char>>)
    requires
        rs.len() > 0,
        all_ids(rs),
    ensures
        split(recipe_list(rs), comma()) == pieces(rs),
        recipe_list(rs).len() >= 2,
        recipe_list(rs)[0] == '"',
        recipe_list(rs).last() == '"',
    decreases rs.len(),
{
    reveal_strlit(", ");
    reveal_strlit(" ");
    if rs.len() == 1 {
        assert(id_safe(rs[0]));
        lemma_id_no_escape(rs[0]);
        lemma_quoted_plain(rs[0]);
        let q = quoted(rs[0]);
        assert(recipe_list(rs) == q);
        lemma_no_comma_from(q, 0);
        assert(q.subrange(0, q.len() as int) =~= q);
        assert(split(q, comma()) == seq![q]);
        assert(pieces(rs) =~= seq![q]);
    } else {
        let d = rs.drop_last();
        assert forall|k: int| 0 <= k < d.len() implies id_safe(#[trigger] d[k]) by {
            assert(d[k] == rs[k]);
        }
        lemma_recipe_list_shape(d);
        assert(id_safe(rs[rs.len() - 1]));
        lemma_id_no_escape(rs.last());
        lemma_quoted_plain(rs.last());
        let x = recipe_list(d);
        let y = " "@ + quoted(rs.last());
        assert(recipe_list(rs) =~= x + comma() + y);
        assert forall|k: int| 0 <= k < y.len() implies y[k] != ',' by {
            if k > 0 {
                assert(y[k] == quoted(rs.last())[k - 1]);
            }
        }
        lemma_split_append(x, y, 0);
    }
}

proof fn lemma_list_items_push(a: Seq<Seq<char>>, p: Seq<char>, xs: Seq<Seq<char>>, r: Seq<char>)
    requires
        list_items(a) == Ok::<Seq<Seq<char>>, Seq<char>>(xs),
        trim(p) == quoted(r),
        no_escape(r),
    ensures
        list_items(a.push(p)) == Ok::<Seq<Seq<char>>, Seq<char>>(xs.push(r)),
    decreases a.len(),
{
    if a.len() == 0 {
        lemma_quoted_plain(r);
        let item = quoted(r);
        assert(a.push(p) =~= seq![p]);
        assert(seq![p].drop_first() =~= Seq::<Seq<char>>::empty());
        assert(item.subrange(1, item.len() - 1) =~= r);
        assert(!r.contains('"') && !r.contains('\\'));
        assert(xs =~= Seq::<Seq<char>>::empty());
        assert(list_items(Seq::<Seq<char>>::empty()) == Ok::<Seq<Seq<char>>, Seq<char>>(Seq::empty()));
        assert(item.len() >= 2 && item[0] == '"' && item.last() == '"');
        assert(list_items(seq![p]) == Ok::<Seq<Seq<char>>, Seq<char>>(seq![r] + Seq::<Seq<char>>::empty()));
        assert(seq![r] + Seq::<Seq<char>>::empty() =~= xs.push(r));
    } else {
        let rest = list_items(a.drop_first())->Ok_0;
        assert(list_items(a.drop_first()) is Ok);
        lemma_list_items_push(a.drop_first(), p, rest, r);
        assert(a.push(p).drop_first() =~= a.drop_first().push(p));
        assert(a.push(p)[0] == a[0]);
        let item = trim(a[0]);
        let inner = item.subrange(1, item.len() - 1);
        assert(xs == seq![inner] + rest);
        assert(list_items(a.push(p)) == Ok::<Seq<Seq<char>>, Seq<char>>(seq![inner] + rest.push(r)));
        assert(seq![inner] + rest.push(r) =~= xs.push(r));
    }
}

proof fn lemma_list_items_pieces(rs: Seq<Seq<char>>)
    requires
        rs.len() > 0,
        all_ids(rs),
    ensures
        list_items(pieces(rs)) == Ok::<Seq<Seq<char>>, Seq<char>>(rs),
    decreases rs.len(),
{
    reveal_strlit(" ");
    let r = rs.last();
    assert(id_safe(rs[rs.len() - 1]));
    lemma_id_no_escape(r);
    lemma_quoted_plain(r);
    if rs.len() == 1 {
        assert(list_items(Seq::<Seq<char>>::empty()) == Ok::<Seq<Seq<char>>, Seq<char>>(Seq::empty()));
        lemma_trim_same(quoted(r));
        assert(pieces(rs) =~= Seq::<Seq<char>>::empty().push(quoted(r)));
        lemma_list_items_push(Seq::empty(), quoted(r), Seq::empty(), r);
        assert(Seq::<Seq<char>>::empty().push(r) =~= rs);
    } else {
        let d = rs.drop_last();
        assert forall|k: int| 0 <= k < d.len() implies id_safe(#[trigger] d[k]) by {
            assert(d[k] == rs[k]);
        }
        lemma_list_items_pieces(d);
        let e = Seq::<char>::empty();
        assert(all_ws(" "@));
        assert(" "@ + quoted(r) + e =~= " "@ + quoted(r));
        lemma_trim_pad(" "@, quoted(r), e);
        lemma_list_items_push(pieces(d), " "@ + quoted(r), d, r);
        assert(d.push(r) =~= rs);
    }
}

/// A one-line list of identifiers reads back as the list.
pub proof fn lemma_value_list(rs: Seq<Seq<char>>)
    requires
        rs.len() > 0,
        all_ids(rs),
    ensures
        value_of("["@ + recipe_list(rs) + "]"@) == Ok::<ScalarView, Seq<char>>(ScalarView::List(rs)),
{
    reveal_strlit("[");
    reveal_strlit("]");
    lemma_recipe_list_shape(rs);
    lemma_list_items_pieces(rs);
    let l = recipe_list(rs);
    let input = "["@ + l + "]"@;
    assert(input[0] == '[');
    let rest = input.drop_first();
    assert(rest =~= l + "]"@);
    assert(rest.drop_last() =~= l);
    lemma_trim_same(l);
}

// ---------------------------------------------------------------------------
// `key = value` lines.
// ---------------------------------------------------------------------------

/// A value as the canonical renderer writes it.
pub open spec fn val_text(v: ScalarView) -> Seq<char> {
    match v {
        ScalarView::Text(s) => quoted(s),
        ScalarView::Integer(n) => decimal(n as nat),
        ScalarView::List(rs) => "["@ + recipe_list(rs) + "]"@,
    }
}

/// A value the canonical renderer writes and the reader reads back.
pub open spec fn renderable(v: ScalarView) -> bool {
    v matches ScalarView::List(rs) ==> rs.len() > 0 && all_ids(rs)
}

pub open spec fn key_ok(k: Seq<char>) -> bool {
    k.len() > 0 && forall|i: int| 0 <= i < k.len() ==> super::toml::key_char(#[trigger] k[i])
}

pub open spec fn field_line(f: (Seq<char>, ScalarView)) -> Seq<char> {
    f.0 + " = "@ + val_text(f.1)
}

proof fn lemma_escaped_no_newline(t: Seq<char>)
    ensures
        forall|k: int| 0 <= k < escaped(t).len() ==> escaped(t)[k] != '\n' && escaped(t)[k] != '\r',
    decreases t.len(),
{
    if t.len() > 0 {
        lemma_escaped_no_newline(t.drop_last());
        let a = escaped(t.drop_last());
        let e = escape_char(t.last());
        assert(escaped(t) == a + e);
        assert forall|k: int| 0 <= k < escaped(t).len() implies escaped(t)[k] != '\n' && escaped(t)[k] != '\r' by {
            if k >= a.len() {
                assert(escaped(t)[k] == e[k - a.len()]);
            } else {
                assert(escaped(t)[k] == a[k]);
            }
        }
    }
}

proof fn lemma_val_text(v: ScalarView)
    requires
        renderable(v),
    ensures
        value_of(val_text(v)) == Ok::<ScalarView, Seq<char>>(v),
        val_text(v).len() > 0,
        !is_ws(val_text(v)[0]),
        !is_ws(val_text(v).last()),
        forall|k: int| 0 <= k < val_text(v).len() ==> val_text(v)[k] != '\n' && val_text(v)[k] != '\r',
{
    reveal_strlit("[");
    reveal_strlit("]");
    let t = val_text(v);
    match v {
        ScalarView::Text(s) => {
            lemma_value_quoted(s);
            lemma_escaped_no_newline(s);
            assert forall|k: int| 0 <= k < t.len() implies t[k] != '\n' && t[k] != '\r' by {
                if 0 < k < t.len() - 1 {
                    assert(t[k] == escaped(s)[k - 1]);
                }
            }
        },
        ScalarView::Integer(n) => {
            lemma_value_decimal(n);
            lemma_decimal_digits(n as nat);
            assert(is_digit(t[t.len() - 1]));
        },
        ScalarView::List(rs) => {
            lemma_value_list(rs);
            lemma_recipe_list_shape(rs);
            let l = recipe_list(rs);
            assert(t =~= "["@ + l + "]"@);
            lemma_recipe_list_plain(rs);
            assert forall|k: int| 0 <= k < t.len() implies t[k] != '\n' && t[k] != '\r' by {
                if 0 < k < t.len() - 1 {
                    assert(t[k] == l[k - 1]);
                }
            }
        },
    }
}

proof fn lemma_recipe_list_plain(rs: Seq<Seq<char>>)
    requires
        all_ids(rs),
    ensures
        forall|k: int| 0 <= k < recipe_list(rs).len() ==> recipe_list(rs)[k] != '\n' && recipe_list(rs)[k] != '\r',
    decreases rs.len(),
{
    reveal_strlit(", ");
    if rs.len() > 0 {
        assert(id_safe(rs[rs.len() - 1]));
        lemma_id_no_escape(rs.last());
        lemma_quoted_plain(rs.last());
        let q = quoted(rs.last());
        assert forall|k: int| 0 <= k < q.len() implies q[k] != '\n' && q[k] != '\r' by {
            if 0 < k < q.len() - 1 {
                assert(q[k] == rs.last()[k - 1]);
            }
        }
        if rs.len() > 1 {
            let d = rs.drop_last();
            assert forall|k: int| 0 <= k < d.len() implies id_safe(#[trigger] d[k]) by {
                assert(d[k] == rs[k]);
            }
            lemma_recipe_list_plain(d);
            let x = recipe_list(d);
            let l = recipe_list(rs);
            assert(l == x + ", "@ + q);
            assert forall|k: int| 0 <= k < l.len() implies l[k] != '\n' && l[k] != '\r' by {
                if k < x.len() {
                    assert(l[k] == x[k]);
                } else if k >= x.len() + 2 {
                    assert(l[k] == q[k - x.len() - 2]);
                }
            }
        }
    }
}


proof fn lemma_key_char_not(c: char)
    requires
        super::toml::key_char(c),
    ensures
        !is_ws(c),
        c != '=',
        c != '#',
        c != '[',
        c != ' ',
        c != '\n',
        c != '\r',
{
}

proof fn lemma_field_line_facts(f: (Seq<char>, ScalarView))
    requires
        key_ok(f.0),
        renderable(f.1),
    ensures
        ({
            let line = field_line(f);
            let e = f.0.len() as int + 1;
            &&& trim(line) == line
            &&& line.len() > 0
            &&& line[0] != '#'
            &&& line[0] != '['
            &&& !has_prefix(line, "[["@)
            &&& first_index(line, '=') == Some(e)
            &&& trim(line.take(e)) == f.0
            &&& trim(line.skip(e + 1)) == val_text(f.1)
            &&& value_of(val_text(f.1)) == Ok::<ScalarView, Seq<char>>(f.1)
        }),
{
    reveal_strlit(" = ");
    reveal_strlit(" ");
    reveal_strlit("[[");
    let k = f.0;
    let vt = val_text(f.1);
    lemma_val_text(f.1);
    let line = field_line(f);
    assert(line =~= k + " = "@ + vt);
    lemma_key_char_not(k[0]);
    assert(line[0] == k[0]);
    assert(line.last() == vt.last());
    lemma_trim_same(line);
    assert(!has_prefix(line, "[["@)) by {
        if has_prefix(line, "[["@) {
            assert(line.subrange(0, 2)[0] == line[0]);
        }
    }
    let e: int = k.len() as int + 1;
    assert(line[e] == '=');
    assert(line.contains('='));
    let i = choose|i: int| 0 <= i < line.len() && line[i] == '=' && forall|j: int| 0 <= j < i ==> line[j] != '=';
    assert(i == e) by {
        if i < e {
            if i < k.len() {
                lemma_key_char_not(k[i]);
                assert(line[i] == k[i]);
            } else {
                assert(line[i] == ' ');
            }
        }
    }
    assert(first_index(line, '=') == Some(e));
    let empty = Seq::<char>::empty();
    assert(all_ws(" "@));
    assert(all_ws(empty));
    lemma_key_char_not(k[k.len() - 1]);
    assert(line.take(e) =~= empty + k + " "@);
    lemma_trim_pad(empty, k, " "@);
    assert(line.skip(e + 1) =~= " "@ + vt + empty);
    lemma_trim_pad(" "@, vt, empty);
}

/// A `key = value` line as the renderer writes it is read as that pair.
#[verifier::spinoff_prover]
#[verifier::rlimit(40)]
pub proof fn lemma_field_step(array: Seq<char>, d: DocView, cur: Section, f: (Seq<char>, ScalarView), n: int)
    requires
        key_ok(f.0),
        renderable(f.1),
    ensures
        line_step(array, d, cur, field_line(f), n) == (match insert_pair(d, cur, f.0, f.1, n) {
            Ok(d2) => Ok::<(DocView, Section), (int, Seq<char>)>((d2, cur)),
            Err(e) => Err(e),
        }),
{
    lemma_field_line_facts(f);
    let e = f.0.len() as int + 1;
    let line = field_line(f);
    assert(trim(line.take(e)).len() > 0);
    assert(forall|i: int| 0 <= i < f.0.len() ==> super::toml::key_char(#[trigger] f.0[i]));
}

/// A blank line changes nothing.
pub proof fn lemma_blank_step(array: Seq<char>, d: DocView, cur: Section, n: int)
    ensures
        line_step(array, d, cur, Seq::empty(), n) == Ok::<(DocView, Section), (int, Seq<char>)>((d, cur)),
{
    assert(trim(Seq::<char>::empty()) =~= Seq::<char>::empty()) by {
        assert(trim_start(Seq::<char>::empty()) == Seq::<char>::empty());
        assert(trim_end(Seq::<char>::empty()) == Seq::<char>::empty());
    }
}

/// The `[reconstruction]` header opens an empty reconstruction table.
pub proof fn lemma_recon_step(array: Seq<char>, d: DocView, cur: Section, n: int)
    requires
        d.reconstruction is None,
    ensures
        line_step(array, d, cur, "[reconstruction]"@, n) == Ok::<(DocView, Section), (int, Seq<char>)>((
            DocView { reconstruction: Some(Seq::empty()), ..d },
            Section::Reconstruction,
        )),
{
    reveal_strlit("[reconstruction]");
    reveal_strlit("reconstruction");
    reveal_strlit("[[");
    let line = "[reconstruction]"@;
    lemma_trim_same(line);
    assert(!has_prefix(line, "[["@)) by {
        if has_prefix(line, "[["@) {
            assert(line.subrange(0, 2)[1] == line[1]);
        }
    }
    let rest = line.skip(1);
    assert(rest.drop_last() =~= "reconstruction"@);
    lemma_trim_same("reconstruction"@);
}

/// The `[measures]` header opens an empty measures table.
pub proof fn lemma_measures_step(array: Seq<char>, d: DocView, cur: Section, n: int)
    requires
        d.measures is None,
    ensures
        line_step(array, d, cur, "[measures]"@, n) == Ok::<(DocView, Section), (int, Seq<char>)>((
            DocView { measures: Some(Seq::empty()), ..d },
            Section::Measures,
        )),
{
    reveal_strlit("[measures]");
    reveal_strlit("measures");
    reveal_strlit("reconstruction");
    reveal_strlit("[[");
    let line = "[measures]"@;
    lemma_trim_same(line);
    assert(!has_prefix(line, "[["@)) by {
        if has_prefix(line, "[["@) {
            assert(line.subrange(0, 2)[1] == line[1]);
        }
    }
    let rest = line.skip(1);
    assert(rest.drop_last() =~= "measures"@);
    lemma_trim_same("measures"@);
}

/// The `[[rules]]` header opens a new, empty rule table.
pub proof fn lemma_rules_step(d: DocView, cur: Section, n: int)
    ensures
        line_step("rules"@, d, cur, "[[rules]]"@, n) == Ok::<(DocView, Section), (int, Seq<char>)>((
            DocView { rules: d.rules.push(Seq::empty()), ..d },
            Section::Rule(d.rules.len() as usize),
        )),
{
    reveal_strlit("[[rules]]");
    reveal_strlit("rules");
    reveal_strlit("[[");
    reveal_strlit("]]");
    let line = "[[rules]]"@;
    lemma_trim_same(line);
    assert(line.subrange(0, 2) =~= "[["@);
    let rest = line.skip(2);
    assert(rest.subrange(rest.len() - 2, rest.len() as int) =~= "]]"@);
    assert(rest.take(rest.len() - 2) =~= "rules"@);
    lemma_trim_same("rules"@);
}

// ---------------------------------------------------------------------------
// Reading lines in sequence.
// ---------------------------------------------------------------------------

/// The state after reading the lines, if none fails.
pub open spec fn run(array: Seq<char>, ls: Seq<Seq<char>>, d: DocView, cur: Section) -> Option<(DocView, Section)>
    decreases ls.len(),
{
    if ls.len() == 0 {
        Some((d, cur))
    } else {
        match line_step(array, d, cur, ls[0], 0) {
            Ok((d2, c2)) => run(array, ls.drop_first(), d2, c2),
            Err(_) => None,
        }
    }
}

proof fn lemma_step_n(array: Seq<char>, d: DocView, cur: Section, raw: Seq<char>, n: int)
    requires
        line_step(array, d, cur, raw, 0) is Ok,
    ensures
        line_step(array, d, cur, raw, n) == line_step(array, d, cur, raw, 0),
{
}

pub proof fn lemma_run_concat(array: Seq<char>, a: Seq<Seq<char>>, b: Seq<Seq<char>>, d: DocView, cur: Section)
    ensures
        run(array, a + b, d, cur) == (match run(array, a, d, cur) {
            Some((d1, c1)) => run(array, b, d1, c1),
            None => None,
        }),
    decreases a.len(),
{
    if a.len() == 0 {
        assert(a + b =~= b);
    } else {
        assert((a + b)[0] == a[0]);
        assert((a + b).drop_first() =~= a.drop_first() + b);
        match line_step(array, d, cur, a[0], 0) {
            Ok((d2, c2)) => {
                lemma_run_concat(array, a.drop_first(), b, d2, c2);
            },
            Err(_) => {},
        }
    }
}

proof fn lemma_read_run(array: Seq<char>, ls: Seq<Seq<char>>, i: int, d: DocView, cur: Section)
    requires
        0 <= i <= ls.len(),
        run(array, ls.skip(i), d, cur) is Some,
    ensures
        read_lines(array, ls, i, d, cur) == Ok::<DocView, (int, Seq<char>)>((run(array, ls.skip(i), d, cur)->0).0),
    decreases ls.len() - i,
{
    if i < ls.len() {
        assert(ls.skip(i)[0] == ls[i]);
        assert(ls.skip(i).drop_first() =~= ls.skip(i + 1));
        lemma_step_n(array, d, cur, ls[i], i + 1);
        let (d2, c2) = line_step(array, d, cur, ls[i], 0)->Ok_0;
        lemma_read_run(array, ls, i + 1, d2, c2);
    }
}

/// Reading the lines of a text whose lines all succeed gives the state they
/// reach.
pub proof fn lemma_raw_document_run(array: Seq<char>, ls: Seq<Seq<char>>)
    requires
        forall|k: int| 0 <= k < ls.len() ==> plain_line(#[trigger] ls[k]),
        run(array, ls, super::toml::empty_doc(), Section::Root) is Some,
    ensures
        super::toml::raw_document_with(joined(ls), array) == Ok::<DocView, (int, Seq<char>)>(
            (run(array, ls, super::toml::empty_doc(), Section::Root)->0).0,
        ),
{
    lemma_lines_of_joined(ls);
    assert(ls.skip(0) =~= ls);
    lemma_read_run(array, ls, 0, super::toml::empty_doc(), Section::Root);
}

// ---------------------------------------------------------------------------
// Tables filled by `key = value` lines.
// ---------------------------------------------------------------------------

pub open spec fn table_of(d: DocView, cur: Section) -> Option<Seq<(Seq<char>, ScalarView)>> {
    match cur {
        Section::Root => Some(d.root),
        Section::Reconstruction => d.reconstruction,
        Section::Measures => d.measures,
        Section::Rule(i) => if i < d.rules.len() {
            Some(d.rules[i as int])
        } else {
            None
        },
    }
}

pub open spec fn put_table(d: DocView, cur: Section, t: Seq<(Seq<char>, ScalarView)>) -> DocView {
    match cur {
        Section::Root => DocView { root: t, ..d },
        Section::Reconstruction => DocView { reconstruction: Some(t), ..d },
        Section::Measures => DocView { measures: Some(t), ..d },
        Section::Rule(i) => DocView { rules: d.rules.update(i as int, t), ..d },
    }
}

pub open spec fn field_lines(fs: Seq<(Seq<char>, ScalarView)>) -> Seq<Seq<char>> {
    Seq::new(fs.len(), |i: int| field_line(fs[i]))
}

/// Fields the renderer writes: valid keys, each new to the table filled so
/// far, and values it can write.
pub open spec fn fields_ok(t: Seq<(Seq<char>, ScalarView)>, fs: Seq<(Seq<char>, ScalarView)>) -> bool {
    forall|i: int|
        0 <= i < fs.len() ==> key_ok(#[trigger] fs[i].0) && renderable(fs[i].1) && !has_key(t + fs.take(i), fs[i].0)
}

proof fn lemma_insert_put(d: DocView, cur: Section, k: Seq<char>, v: ScalarView, n: int)
    requires
        table_of(d, cur) is Some,
        !has_key(table_of(d, cur)->0, k),
    ensures
        insert_pair(d, cur, k, v, n) == Ok::<DocView, (int, Seq<char>)>(
            put_table(d, cur, (table_of(d, cur)->0).push((k, v))),
        ),
{
}

#[verifier::spinoff_prover]
pub proof fn lemma_run_fields(array: Seq<char>, fs: Seq<(Seq<char>, ScalarView)>, d: DocView, cur: Section)
    requires
        table_of(d, cur) is Some,
        fields_ok(table_of(d, cur)->0, fs),
    ensures
        run(array, field_lines(fs), d, cur) == Some((put_table(d, cur, table_of(d, cur)->0 + fs), cur)),
    decreases fs.len(),
{
    let t0 = table_of(d, cur)->0;
    if fs.len() == 0 {
        assert(t0 + fs =~= t0);
        assert(put_table(d, cur, t0) == d) by {
            match cur {
                Section::Rule(i) => {
                    assert(d.rules.update(i as int, t0) =~= d.rules);
                },
                _ => {},
            }
        }
    } else {
        let f = fs[0];
        assert(key_ok(fs[0].0) && renderable(fs[0].1) && !has_key(t0 + fs.take(0), fs[0].0));
        assert(t0 + fs.take(0) =~= t0);
        lemma_field_step(array, d, cur, f, 0);
        lemma_insert_put(d, cur, f.0, f.1, 0);
        let t1 = t0.push(f);
        let d1 = put_table(d, cur, t1);
        assert(insert_pair(d, cur, f.0, f.1, 0) == Ok::<DocView, (int, Seq<char>)>(d1));
        assert(field_lines(fs)[0] == field_line(f));
        assert(field_lines(fs).drop_first() =~= field_lines(fs.drop_first()));
        assert(table_of(d1, cur) == Some(t1));
        let rest = fs.drop_first();
        assert forall|i: int| 0 <= i < rest.len() implies key_ok(#[trigger] rest[i].0) && renderable(rest[i].1)
            && !has_key(t1 + rest.take(i), rest[i].0) by {
            assert(rest[i] == fs[i + 1]);
            assert(t1 + rest.take(i) =~= t0 + fs.take(i + 1));
        }
        lemma_run_fields(array, rest, d1, cur);
        assert(t1 + rest =~= t0 + fs);
        assert(put_table(d1, cur, t0 + fs) == put_table(d, cur, t0 + fs)) by {
            match cur {
                Section::Rule(i) => {
                    assert(d1.rules.update(i as int, t0 + fs) =~= d.rules.update(i as int, t0 + fs));
                },
                _ => {},
            }
        }
    }
}


// ---------------------------------------------------------------------------
// Building field lists piece by piece.
// ---------------------------------------------------------------------------

pub broadcast proof fn lemma_has_key_concat(a: Seq<(Seq<char>, ScalarView)>, b: Seq<(Seq<char>, ScalarView)>, k: Seq<char>)
    ensures
        #[trigger] has_key(a + b, k) == (has_key(a, k) || has_key(b, k)),
{
    if has_key(a + b, k) {
        let i = choose|i: int| 0 <= i < (a + b).len() && #[trigger] (a + b)[i].0 == k;
        if i < a.len() {
            assert(a[i] == (a + b)[i]);
        } else {
            assert(b[i - a.len()] == (a + b)[i]);
        }
    }
    if has_key(a, k) {
        let i = choose|i: int| 0 <= i < a.len() && #[trigger] a[i].0 == k;
        assert((a + b)[i] == a[i]);
    }
    if has_key(b, k) {
        let i = choose|i: int| 0 <= i < b.len() && #[trigger] b[i].0 == k;
        assert((a + b)[a.len() + i] == b[i]);
    }
}

pub broadcast proof fn lemma_has_key_one(k2: Seq<char>, v: ScalarView, k: Seq<char>)
    ensures
        #[trigger] has_key(seq![(k2, v)], k) == (k2 == k),
{
    if k2 == k {
        assert(seq![(k2, v)][0].0 == k);
    }
}

pub broadcast proof fn lemma_has_key_opt(k2: Seq<char>, o: Option<Seq<char>>, k: Seq<char>)
    ensures
        #[trigger] has_key(opt_f(k2, o), k) ==> k2 == k,
{
    reveal(opt_f);
    if o is Some {
        lemma_has_key_one(k2, ScalarView::Text(o->0), k);
    }
}

pub broadcast proof fn lemma_has_key_empty(k: Seq<char>)
    ensures
        !#[trigger] has_key(Seq::<(Seq<char>, ScalarView)>::empty(), k),
{
}

proof fn lemma_fields_ok_concat(t: Seq<(Seq<char>, ScalarView)>, a: Seq<(Seq<char>, ScalarView)>, b: Seq<(Seq<char>, ScalarView)>)
    requires
        fields_ok(t, a),
        fields_ok(t + a, b),
    ensures
        fields_ok(t, a + b),
{
    let c = a + b;
    assert forall|i: int| 0 <= i < c.len() implies key_ok(#[trigger] c[i].0) && renderable(c[i].1) && !has_key(
        t + c.take(i),
        c[i].0,
    ) by {
        if i < a.len() {
            assert(c[i] == a[i]);
            assert(c.take(i) =~= a.take(i));
            assert(key_ok(a[i].0) && renderable(a[i].1) && !has_key(t + a.take(i), a[i].0));
        } else {
            let j = i - a.len();
            assert(c[i] == b[j]);
            assert(t + c.take(i) =~= (t + a) + b.take(j));
            assert(key_ok(b[j].0) && renderable(b[j].1) && !has_key((t + a) + b.take(j), b[j].0));
        }
    }
}

proof fn lemma_fields_ok_one(t: Seq<(Seq<char>, ScalarView)>, k: Seq<char>, v: ScalarView)
    requires
        key_ok(k),
        renderable(v),
        !has_key(t, k),
    ensures
        fields_ok(t, seq![(k, v)]),
{
    assert(t + seq![(k, v)].take(0) =~= t);
}

/// An optional text field: present only when the value is.
#[verifier::opaque]
pub open spec fn opt_f(k: Seq<char>, o: Option<Seq<char>>) -> Seq<(Seq<char>, ScalarView)> {
    match o {
        Some(x) => seq![(k, ScalarView::Text(x))],
        None => Seq::empty(),
    }
}

proof fn lemma_fields_ok_opt(t: Seq<(Seq<char>, ScalarView)>, k: Seq<char>, o: Option<Seq<char>>)
    requires
        key_ok(k),
        !has_key(t, k),
    ensures
        fields_ok(t, opt_f(k, o)),
{
    reveal(opt_f);
    if o is Some {
        lemma_fields_ok_one(t, k, ScalarView::Text(o->0));
    }
}

/// The text of fields, one line each.
pub open spec fn jf(fs: Seq<(Seq<char>, ScalarView)>) -> Seq<char> {
    joined(field_lines(fs))
}

pub broadcast proof fn lemma_jf_concat(a: Seq<(Seq<char>, ScalarView)>, b: Seq<(Seq<char>, ScalarView)>)
    ensures
        #[trigger] jf(a + b) == jf(a) + jf(b),
{
    assert(field_lines(a + b) =~= field_lines(a) + field_lines(b));
    lemma_joined_concat(field_lines(a), field_lines(b));
}

proof fn lemma_jf_one(k: Seq<char>, v: ScalarView)
    ensures
        jf(seq![(k, v)]) == k + " = "@ + val_text(v) + "\n"@,
{
    let ls = field_lines(seq![(k, v)]);
    assert(ls[0] == field_line((k, v)));
    assert(ls.drop_first() =~= Seq::<Seq<char>>::empty());
    assert(joined(ls.drop_first()) == Seq::<char>::empty());
}

proof fn lemma_jf_text(k: Seq<char>, x: Seq<char>)
    ensures
        jf(seq![(k, ScalarView::Text(x))]) == super::render::text_line(k, x),
{
    lemma_jf_one(k, ScalarView::Text(x));
}

proof fn lemma_jf_int(k: Seq<char>, n: u64)
    ensures
        jf(seq![(k, ScalarView::Integer(n))]) == super::render::int_line(k, n as nat),
{
    lemma_jf_one(k, ScalarView::Integer(n));
}

proof fn lemma_jf_opt(k: Seq<char>, o: Option<Seq<char>>)
    ensures
        jf(opt_f(k, o)) == super::render::opt_line(k, o),
{
    reveal(opt_f);
    if o is Some {
        lemma_jf_text(k, o->0);
    } else {
        assert(field_lines(opt_f(k, o)) =~= Seq::<Seq<char>>::empty());
    }
}

pub proof fn lemma_jf_empty()
    ensures
        jf(Seq::empty()) == Seq::<char>::empty(),
{
    assert(field_lines(Seq::<(Seq<char>, ScalarView)>::empty()) =~= Seq::<Seq<char>>::empty());
}

pub proof fn lemma_field_lines_plain(fs: Seq<(Seq<char>, ScalarView)>)
    requires
        forall|i: int| 0 <= i < fs.len() ==> key_ok(#[trigger] fs[i].0) && renderable(fs[i].1),
    ensures
        forall|k: int| 0 <= k < field_lines(fs).len() ==> plain_line(#[trigger] field_lines(fs)[k]),
{
    reveal_strlit(" = ");
    assert forall|k: int| 0 <= k < field_lines(fs).len() implies plain_line(#[trigger] field_lines(fs)[k]) by {
        assert(field_lines(fs).len() == fs.len());
        assert(0 <= k < fs.len());
        let g = fs[k].0;
        assert(key_ok(g));
        assert(renderable(fs[k].1));
        let f = fs[k];
        lemma_val_text(f.1);
        let l = field_line(f);
        let vt = val_text(f.1);
        assert(l =~= f.0 + " = "@ + vt);
        assert forall|j: int| 0 <= j < l.len() implies l[j] != '\n' by {
            if j < f.0.len() {
                lemma_key_char_not(f.0[j]);
                assert(l[j] == f.0[j]);
            } else if j >= f.0.len() + 3 {
                assert(l[j] == vt[j - f.0.len() - 3]);
            }
        }
        assert(l.last() == vt.last());
    }
}


// ---------------------------------------------------------------------------
// The canonical snapshot document.
// ---------------------------------------------------------------------------

pub open spec fn one(k: Seq<char>, v: ScalarView) -> Seq<(Seq<char>, ScalarView)> {
    seq![(k, v)]
}

pub open spec fn list_f(k: Seq<char>, rs: Seq<Seq<char>>) -> Seq<(Seq<char>, ScalarView)> {
    if rs.len() > 0 {
        one(k, ScalarView::List(rs))
    } else {
        Seq::empty()
    }
}

pub open spec fn root_fs(v: SnapshotView) -> Seq<(Seq<char>, ScalarView)> {
    one("schema"@, ScalarView::Integer(v.schema)) + one("id"@, ScalarView::Text(v.id)) + one(
        "state"@,
        ScalarView::Text(state_name(v.state)),
    ) + opt_f("predecessor"@, v.predecessor) + opt_f("justification"@, v.justification)
}

pub open spec fn recon_fs(v: SnapshotView) -> Seq<(Seq<char>, ScalarView)> {
    opt_f("base_snapshot"@, v.base_snapshot) + list_f("recipes"@, v.recipes) + one(
        "expected_overrides"@,
        ScalarView::Integer(v.expected_overrides),
    ) + one("expected_exclusions"@, ScalarView::Integer(v.expected_exclusions)) + (if v.expected_materializations
        > 0 {
        one("expected_materializations"@, ScalarView::Integer(v.expected_materializations))
    } else {
        Seq::empty()
    })
}

pub open spec fn meas_fs(m: Measures) -> Seq<(Seq<char>, ScalarView)> {
    one("regions"@, ScalarView::Integer(m.regions)) + one("length"@, ScalarView::Integer(m.length)) + one(
        "fnv1a64"@,
        ScalarView::Text(fnv_canonical(m.fnv1a64)),
    )
}

pub open spec fn text_f(k: Seq<char>, x: Seq<char>) -> Seq<(Seq<char>, ScalarView)> {
    one(k, ScalarView::Text(x))
}

pub open spec fn int_f(k: Seq<char>, n: u64) -> Seq<(Seq<char>, ScalarView)> {
    one(k, ScalarView::Integer(n))
}

/// The fields of a rule after its operation.
pub open spec fn rule_rest_fs(r: RuleView) -> Seq<(Seq<char>, ScalarView)> {
    match r {
        RuleView::OverrideHash { key, from, to, expect_file, expect_domain, expect_layer } => text_f("key"@, key)
            + text_f("from"@, from) + text_f("to"@, to) + opt_f("expect_file"@, expect_file) + opt_f(
            "expect_domain"@,
            expect_domain,
        ) + opt_f("expect_layer"@, expect_layer),
        RuleView::ExcludeKey { key, expected_matches } => text_f("key"@, key) + int_f(
            "expected_matches"@,
            expected_matches,
        ),
        RuleView::ExcludeKeyPrefix { prefix, expected_matches } => text_f("prefix"@, prefix) + int_f(
            "expected_matches"@,
            expected_matches,
        ),
        RuleView::ExcludeFilePrefix { prefix, expected_matches } => text_f("prefix"@, prefix) + int_f(
            "expected_matches"@,
            expected_matches,
        ),
        RuleView::ExcludeFile { file, expected_matches } => text_f("file"@, file) + int_f(
            "expected_matches"@,
            expected_matches,
        ),
        RuleView::OverrideRegion {
            key,
            from_hash,
            to_hash,
            from_summary,
            to_summary,
            expect_file,
            to_file,
            expect_domain,
            expect_layer,
        } => text_f("key"@, key) + opt_f("from_hash"@, from_hash) + opt_f("to_hash"@, to_hash) + opt_f(
            "from_summary"@,
            from_summary,
        ) + opt_f("to_summary"@, to_summary) + opt_f("expect_file"@, expect_file) + opt_f("to_file"@, to_file)
            + opt_f("expect_domain"@, expect_domain) + opt_f("expect_layer"@, expect_layer),
        RuleView::MaterializeRegion { key, kind, domain, layer, file, summary, hash, status } => text_f(
            "key"@,
            key,
        ) + text_f("kind"@, kind) + opt_f("domain"@, domain) + opt_f("layer"@, layer) + text_f("file"@, file)
            + text_f("summary"@, summary) + text_f("hash"@, hash) + text_f("status"@, status),
    }
}

pub open spec fn rule_fs(r: RuleView) -> Seq<(Seq<char>, ScalarView)> {
    text_f("op"@, rule_op(r)) + rule_rest_fs(r)
}

pub open spec fn hdr(name: Seq<char>) -> Seq<Seq<char>> {
    seq![Seq::<char>::empty(), name]
}

pub open spec fn rules_lines(rs: Seq<RuleView>) -> Seq<Seq<char>>
    decreases rs.len(),
{
    if rs.len() == 0 {
        Seq::empty()
    } else {
        rules_lines(rs.drop_last()) + hdr("[[rules]]"@) + field_lines(rule_fs(rs.last()))
    }
}

pub open spec fn snap_lines(v: SnapshotView) -> Seq<Seq<char>> {
    field_lines(root_fs(v)) + hdr("[reconstruction]"@) + field_lines(recon_fs(v)) + hdr("[measures]"@)
        + field_lines(meas_fs(v.measures)) + rules_lines(sorted_rules(v.rules))
}

proof fn lemma_hdr_text(name: Seq<char>)
    ensures
        joined(hdr(name)) == "\n"@ + name + "\n"@,
{
    let h = hdr(name);
    assert(h.drop_first() =~= seq![name]);
    assert(seq![name].drop_first() =~= Seq::<Seq<char>>::empty());
    assert(joined(Seq::<Seq<char>>::empty()) == Seq::<char>::empty());
    assert(joined(seq![name]) == seq![name][0] + "\n"@ + joined(seq![name].drop_first()));
    assert(joined(seq![name]) =~= name + "\n"@);
    assert(joined(h) == h[0] + "\n"@ + joined(h.drop_first()));
    assert(h[0] == Seq::<char>::empty());
    assert(joined(h) =~= "\n"@ + name + "\n"@);
}

proof fn lemma_rule_text(r: RuleView)
    ensures
        rule_body(r) == jf(rule_fs(r)),
{
    broadcast use lemma_jf_concat;

    lemma_jf_text("op"@, rule_op(r));
    match r {
        RuleView::OverrideHash { key, from, to, expect_file, expect_domain, expect_layer } => {
            lemma_jf_text("key"@, key);
            lemma_jf_text("from"@, from);
            lemma_jf_text("to"@, to);
            lemma_jf_opt("expect_file"@, expect_file);
            lemma_jf_opt("expect_domain"@, expect_domain);
            lemma_jf_opt("expect_layer"@, expect_layer);
        },
        RuleView::ExcludeKey { key, expected_matches } => {
            lemma_jf_text("key"@, key);
            lemma_jf_int("expected_matches"@, expected_matches);
        },
        RuleView::ExcludeKeyPrefix { prefix, expected_matches } => {
            lemma_jf_text("prefix"@, prefix);
            lemma_jf_int("expected_matches"@, expected_matches);
        },
        RuleView::ExcludeFilePrefix { prefix, expected_matches } => {
            lemma_jf_text("prefix"@, prefix);
            lemma_jf_int("expected_matches"@, expected_matches);
        },
        RuleView::ExcludeFile { file, expected_matches } => {
            lemma_jf_text("file"@, file);
            lemma_jf_int("expected_matches"@, expected_matches);
        },
        RuleView::OverrideRegion {
            key,
            from_hash,
            to_hash,
            from_summary,
            to_summary,
            expect_file,
            to_file,
            expect_domain,
            expect_layer,
        } => {
            lemma_jf_text("key"@, key);
            lemma_jf_opt("from_hash"@, from_hash);
            lemma_jf_opt("to_hash"@, to_hash);
            lemma_jf_opt("from_summary"@, from_summary);
            lemma_jf_opt("to_summary"@, to_summary);
            lemma_jf_opt("expect_file"@, expect_file);
            lemma_jf_opt("to_file"@, to_file);
            lemma_jf_opt("expect_domain"@, expect_domain);
            lemma_jf_opt("expect_layer"@, expect_layer);
        },
        RuleView::MaterializeRegion { key, kind, domain, layer, file, summary, hash, status } => {
            lemma_jf_text("key"@, key);
            lemma_jf_text("kind"@, kind);
            lemma_jf_opt("domain"@, domain);
            lemma_jf_opt("layer"@, layer);
            lemma_jf_text("file"@, file);
            lemma_jf_text("summary"@, summary);
            lemma_jf_text("hash"@, hash);
            lemma_jf_text("status"@, status);
        },
    }
}

proof fn lemma_rules_text(rs: Seq<RuleView>)
    ensures
        rules_text(rs) == joined(rules_lines(rs)),
    decreases rs.len(),
{
    broadcast use lemma_joined_concat;

    if rs.len() == 0 {
        assert(joined(Seq::<Seq<char>>::empty()) == Seq::<char>::empty());
    } else {
        lemma_rules_text(rs.drop_last());
        lemma_rule_text(rs.last());
        lemma_hdr_text("[[rules]]"@);
        reveal_strlit("\n[[rules]]\n");
        reveal_strlit("[[rules]]");
        reveal_strlit("\n");
        assert("\n"@ + "[[rules]]"@ + "\n"@ =~= "\n[[rules]]\n"@);
    }
}

proof fn lemma_root_text(v: SnapshotView)
    ensures
        jf(root_fs(v)) == int_line("schema"@, v.schema as nat) + text_line("id"@, v.id) + text_line(
            "state"@,
            state_name(v.state),
        ) + opt_line("predecessor"@, v.predecessor) + opt_line("justification"@, v.justification),
{
    broadcast use lemma_jf_concat;

    lemma_jf_int("schema"@, v.schema);
    lemma_jf_text("id"@, v.id);
    lemma_jf_text("state"@, state_name(v.state));
    lemma_jf_opt("predecessor"@, v.predecessor);
    lemma_jf_opt("justification"@, v.justification);
}

pub open spec fn rec_part(v: SnapshotView) -> Seq<char> {
    if v.recipes.len() > 0 {
        "recipes = ["@ + recipe_list(v.recipes) + "]\n"@
    } else {
        Seq::empty()
    }
}

pub open spec fn em_part(v: SnapshotView) -> Seq<char> {
    if v.expected_materializations > 0 {
        int_line("expected_materializations"@, v.expected_materializations as nat)
    } else {
        Seq::empty()
    }
}

proof fn lemma_recon_text(v: SnapshotView)
    ensures
        jf(recon_fs(v)) == opt_line("base_snapshot"@, v.base_snapshot) + rec_part(v) + int_line(
            "expected_overrides"@,
            v.expected_overrides as nat,
        ) + int_line("expected_exclusions"@, v.expected_exclusions as nat) + em_part(v),
{
    broadcast use lemma_jf_concat;

    lemma_jf_opt("base_snapshot"@, v.base_snapshot);
    if v.recipes.len() > 0 {
        reveal_strlit("recipes = [");
        reveal_strlit("recipes");
        reveal_strlit(" = ");
        reveal_strlit("[");
        reveal_strlit("]");
        reveal_strlit("]\n");
        reveal_strlit("\n");
        lemma_jf_one("recipes"@, ScalarView::List(v.recipes));
        assert("recipes = ["@ + recipe_list(v.recipes) + "]\n"@ =~= "recipes"@ + " = "@ + ("["@ + recipe_list(
            v.recipes,
        ) + "]"@) + "\n"@);
    } else {
        lemma_jf_empty();
    }
    lemma_jf_int("expected_overrides"@, v.expected_overrides);
    lemma_jf_int("expected_exclusions"@, v.expected_exclusions);
    if v.expected_materializations > 0 {
        lemma_jf_int("expected_materializations"@, v.expected_materializations);
    } else {
        lemma_jf_empty();
    }
}

proof fn lemma_meas_text(m: Measures)
    ensures
        jf(meas_fs(m)) == int_line("regions"@, m.regions as nat) + int_line("length"@, m.length as nat)
            + text_line("fnv1a64"@, fnv_canonical(m.fnv1a64)),
{
    broadcast use lemma_jf_concat;

    lemma_jf_int("regions"@, m.regions);
    lemma_jf_int("length"@, m.length);
    lemma_jf_text("fnv1a64"@, fnv_canonical(m.fnv1a64));
}

/// The canonical text of a snapshot is the text of its canonical lines.
#[verifier::spinoff_prover]
#[verifier::rlimit(100)]
pub proof fn lemma_snap_text(v: SnapshotView)
    ensures
        render_text(v) == joined(snap_lines(v)),
{
    let a = field_lines(root_fs(v));
    let h1 = hdr("[reconstruction]"@);
    let b = field_lines(recon_fs(v));
    let h2 = hdr("[measures]"@);
    let c = field_lines(meas_fs(v.measures));
    let rl = rules_lines(sorted_rules(v.rules));
    lemma_joined_concat(a + h1 + b + h2 + c, rl);
    lemma_joined_concat(a + h1 + b + h2, c);
    lemma_joined_concat(a + h1 + b, h2);
    lemma_joined_concat(a + h1, b);
    lemma_joined_concat(a, h1);
    lemma_root_text(v);
    lemma_recon_text(v);
    lemma_meas_text(v.measures);
    lemma_rules_text(sorted_rules(v.rules));
    lemma_hdr_text("[reconstruction]"@);
    lemma_hdr_text("[measures]"@);
    reveal_strlit("\n[reconstruction]\n");
    reveal_strlit("[reconstruction]");
    reveal_strlit("\n[measures]\n");
    reveal_strlit("[measures]");
    reveal_strlit("\n");
    assert("\n"@ + "[reconstruction]"@ + "\n"@ =~= "\n[reconstruction]\n"@);
    assert("\n"@ + "[measures]"@ + "\n"@ =~= "\n[measures]\n"@);
    assert(render_text(v) =~= joined(snap_lines(v)));
}


proof fn lemma_keys_ok()
    ensures
        key_ok("schema"@),
        key_ok("id"@),
        key_ok("state"@),
        key_ok("predecessor"@),
        key_ok("justification"@),
        key_ok("base_snapshot"@),
        key_ok("recipes"@),
        key_ok("expected_overrides"@),
        key_ok("expected_exclusions"@),
        key_ok("expected_materializations"@),
        key_ok("regions"@),
        key_ok("length"@),
        key_ok("fnv1a64"@),
        key_ok("op"@),
        key_ok("key"@),
        key_ok("from"@),
        key_ok("to"@),
        key_ok("expect_file"@),
        key_ok("expect_domain"@),
        key_ok("expect_layer"@),
        key_ok("prefix"@),
        key_ok("file"@),
        key_ok("expected_matches"@),
        key_ok("from_hash"@),
        key_ok("to_hash"@),
        key_ok("from_summary"@),
        key_ok("to_summary"@),
        key_ok("to_file"@),
        key_ok("kind"@),
        key_ok("domain"@),
        key_ok("layer"@),
        key_ok("summary"@),
        key_ok("hash"@),
        key_ok("status"@),
        key_ok("steps"@),
{
    reveal_strlit("schema");
    reveal_strlit("id");
    reveal_strlit("state");
    reveal_strlit("predecessor");
    reveal_strlit("justification");
    reveal_strlit("base_snapshot");
    reveal_strlit("recipes");
    reveal_strlit("expected_overrides");
    reveal_strlit("expected_exclusions");
    reveal_strlit("expected_materializations");
    reveal_strlit("regions");
    reveal_strlit("length");
    reveal_strlit("fnv1a64");
    reveal_strlit("op");
    reveal_strlit("key");
    reveal_strlit("from");
    reveal_strlit("to");
    reveal_strlit("expect_file");
    reveal_strlit("expect_domain");
    reveal_strlit("expect_layer");
    reveal_strlit("prefix");
    reveal_strlit("file");
    reveal_strlit("expected_matches");
    reveal_strlit("from_hash");
    reveal_strlit("to_hash");
    reveal_strlit("from_summary");
    reveal_strlit("to_summary");
    reveal_strlit("to_file");
    reveal_strlit("kind");
    reveal_strlit("domain");
    reveal_strlit("layer");
    reveal_strlit("summary");
    reveal_strlit("hash");
    reveal_strlit("status");
    reveal_strlit("steps");
}

proof fn lemma_root_ok(v: SnapshotView)
    ensures
        fields_ok(Seq::empty(), root_fs(v)),
{
    broadcast use lemma_has_key_concat, lemma_has_key_one, lemma_has_key_empty, lemma_has_key_opt;

    lemma_keys_ok();
    reveal_strlit("schema");
    reveal_strlit("id");
    reveal_strlit("state");
    reveal_strlit("predecessor");
    reveal_strlit("justification");
    let e = Seq::<(Seq<char>, ScalarView)>::empty();
    let a = one("schema"@, ScalarView::Integer(v.schema));
    let b = one("id"@, ScalarView::Text(v.id));
    let c = one("state"@, ScalarView::Text(state_name(v.state)));
    let p = opt_f("predecessor"@, v.predecessor);
    let j = opt_f("justification"@, v.justification);
    lemma_fields_ok_one(e, "schema"@, ScalarView::Integer(v.schema));
    assert(e + a =~= a);
    lemma_fields_ok_one(a, "id"@, ScalarView::Text(v.id));
    lemma_fields_ok_concat(e, a, b);
    assert(e + (a + b) =~= a + b);
    lemma_fields_ok_one(a + b, "state"@, ScalarView::Text(state_name(v.state)));
    lemma_fields_ok_concat(e, a + b, c);
    assert(e + (a + b + c) =~= a + b + c);
    lemma_fields_ok_opt(a + b + c, "predecessor"@, v.predecessor);
    lemma_fields_ok_concat(e, a + b + c, p);
    assert(e + (a + b + c + p) =~= a + b + c + p);
    assert(!has_key(p, "justification"@));
    lemma_fields_ok_opt(a + b + c + p, "justification"@, v.justification);
    lemma_fields_ok_concat(e, a + b + c + p, j);
}

proof fn lemma_recon_ok(v: SnapshotView)
    requires
        all_ids(v.recipes),
    ensures
        fields_ok(Seq::empty(), recon_fs(v)),
{
    broadcast use lemma_has_key_concat, lemma_has_key_one, lemma_has_key_empty, lemma_has_key_opt;

    lemma_keys_ok();
    reveal_strlit("base_snapshot");
    reveal_strlit("recipes");
    reveal_strlit("expected_overrides");
    reveal_strlit("expected_exclusions");
    reveal_strlit("expected_materializations");
    let e = Seq::<(Seq<char>, ScalarView)>::empty();
    let a = opt_f("base_snapshot"@, v.base_snapshot);
    let b = list_f("recipes"@, v.recipes);
    let c = one("expected_overrides"@, ScalarView::Integer(v.expected_overrides));
    let d = one("expected_exclusions"@, ScalarView::Integer(v.expected_exclusions));
    let m = if v.expected_materializations > 0 {
        one("expected_materializations"@, ScalarView::Integer(v.expected_materializations))
    } else {
        Seq::empty()
    };
    lemma_fields_ok_opt(e, "base_snapshot"@, v.base_snapshot);
    assert(e + a =~= a);
    assert(!has_key(a, "recipes"@));
    if v.recipes.len() > 0 {
        lemma_fields_ok_one(a, "recipes"@, ScalarView::List(v.recipes));
    } else {
        assert(fields_ok(a, b));
    }
    lemma_fields_ok_concat(e, a, b);
    assert(e + (a + b) =~= a + b);
    assert(!has_key(b, "expected_overrides"@));
    lemma_fields_ok_one(a + b, "expected_overrides"@, ScalarView::Integer(v.expected_overrides));
    lemma_fields_ok_concat(e, a + b, c);
    assert(e + (a + b + c) =~= a + b + c);
    assert(!has_key(b, "expected_exclusions"@));
    lemma_fields_ok_one(a + b + c, "expected_exclusions"@, ScalarView::Integer(v.expected_exclusions));
    lemma_fields_ok_concat(e, a + b + c, d);
    assert(e + (a + b + c + d) =~= a + b + c + d);
    if v.expected_materializations > 0 {
        assert(!has_key(b, "expected_materializations"@));
        lemma_fields_ok_one(a + b + c + d, "expected_materializations"@, ScalarView::Integer(v.expected_materializations));
    } else {
        assert(fields_ok(a + b + c + d, m));
    }
    lemma_fields_ok_concat(e, a + b + c + d, m);
}

proof fn lemma_meas_ok(mm: Measures)
    ensures
        fields_ok(Seq::empty(), meas_fs(mm)),
{
    broadcast use lemma_has_key_concat, lemma_has_key_one, lemma_has_key_empty, lemma_has_key_opt;

    lemma_keys_ok();
    reveal_strlit("regions");
    reveal_strlit("length");
    reveal_strlit("fnv1a64");
    let e = Seq::<(Seq<char>, ScalarView)>::empty();
    let a = one("regions"@, ScalarView::Integer(mm.regions));
    let b = one("length"@, ScalarView::Integer(mm.length));
    let c = one("fnv1a64"@, ScalarView::Text(fnv_canonical(mm.fnv1a64)));
    lemma_fields_ok_one(e, "regions"@, ScalarView::Integer(mm.regions));
    assert(e + a =~= a);
    lemma_fields_ok_one(a, "length"@, ScalarView::Integer(mm.length));
    lemma_fields_ok_concat(e, a, b);
    assert(e + (a + b) =~= a + b);
    assert("fnv1a64"@ != "regions"@) by { assert("fnv1a64"@.len() != "regions"@.len() || "fnv1a64"@[0] != "regions"@[0]); }
    assert("fnv1a64"@ != "length"@) by { assert("fnv1a64"@.len() != "length"@.len() || "fnv1a64"@[0] != "length"@[0]); }
    lemma_fields_ok_one(a + b, "fnv1a64"@, ScalarView::Text(fnv_canonical(mm.fnv1a64)));
    lemma_fields_ok_concat(e, a + b, c);
}

/// Appending a piece of fields whose keys are new keeps the fields fine.
proof fn lemma_add_piece(acc: Seq<(Seq<char>, ScalarView)>, p: Seq<(Seq<char>, ScalarView)>)
    requires
        fields_ok(Seq::empty(), acc),
        fields_ok(acc, p),
    ensures
        fields_ok(Seq::empty(), acc + p),
{
    let e = Seq::<(Seq<char>, ScalarView)>::empty();
    assert(e + acc =~= acc);
    lemma_fields_ok_concat(e, acc, p);
}

proof fn lemma_text_piece(acc: Seq<(Seq<char>, ScalarView)>, k: Seq<char>, x: Seq<char>)
    requires
        fields_ok(Seq::empty(), acc),
        key_ok(k),
        !has_key(acc, k),
    ensures
        fields_ok(Seq::empty(), acc + text_f(k, x)),
{
    lemma_fields_ok_one(acc, k, ScalarView::Text(x));
    lemma_add_piece(acc, text_f(k, x));
}

proof fn lemma_int_piece(acc: Seq<(Seq<char>, ScalarView)>, k: Seq<char>, n: u64)
    requires
        fields_ok(Seq::empty(), acc),
        key_ok(k),
        !has_key(acc, k),
    ensures
        fields_ok(Seq::empty(), acc + int_f(k, n)),
{
    lemma_fields_ok_one(acc, k, ScalarView::Integer(n));
    lemma_add_piece(acc, int_f(k, n));
}

proof fn lemma_opt_piece(acc: Seq<(Seq<char>, ScalarView)>, k: Seq<char>, o: Option<Seq<char>>)
    requires
        fields_ok(Seq::empty(), acc),
        key_ok(k),
        !has_key(acc, k),
    ensures
        fields_ok(Seq::empty(), acc + opt_f(k, o)),
{
    lemma_fields_ok_opt(acc, k, o);
    lemma_add_piece(acc, opt_f(k, o));
}

#[verifier::spinoff_prover]
proof fn lemma_rule_ok_override_hash(r: RuleView)
    requires
        r is OverrideHash,
    ensures
        fields_ok(Seq::empty(), rule_fs(r)),
{
    broadcast use lemma_has_key_concat, lemma_has_key_one, lemma_has_key_empty, lemma_has_key_opt;

    lemma_keys_ok();
    reveal_strlit("op");
    reveal_strlit("key");
    reveal_strlit("from");
    reveal_strlit("to");
    reveal_strlit("expect_file");
    reveal_strlit("expect_domain");
    reveal_strlit("expect_layer");
    let e = Seq::<(Seq<char>, ScalarView)>::empty();
    let o = text_f("op"@, rule_op(r));
    lemma_text_piece(e, "op"@, rule_op(r));
    assert(e + o =~= o);
    if let RuleView::OverrideHash { key, from, to, expect_file, expect_domain, expect_layer } = r {
        assert("key"@ != "op"@) by { assert("key"@.len() != "op"@.len() || "key"@[0] != "op"@[0]); }
        assert(!has_key(o, "key"@));
        lemma_text_piece(o, "key"@, key);
        let a0 = o + text_f("key"@, key);
        assert("from"@ != "op"@) by { assert("from"@.len() != "op"@.len() || "from"@[0] != "op"@[0]); }
        assert("from"@ != "key"@) by { assert("from"@.len() != "key"@.len() || "from"@[0] != "key"@[0]); }
        assert(!has_key(a0, "from"@));
        lemma_text_piece(a0, "from"@, from);
        let a1 = a0 + text_f("from"@, from);
        assert("to"@ != "op"@) by { assert("to"@.len() != "op"@.len() || "to"@[0] != "op"@[0]); }
        assert("to"@ != "key"@) by { assert("to"@.len() != "key"@.len() || "to"@[0] != "key"@[0]); }
        assert("to"@ != "from"@) by { assert("to"@.len() != "from"@.len() || "to"@[0] != "from"@[0]); }
        assert(!has_key(a1, "to"@));
        lemma_text_piece(a1, "to"@, to);
        let a2 = a1 + text_f("to"@, to);
        assert("expect_file"@ != "op"@) by { assert("expect_file"@.len() != "op"@.len() || "expect_file"@[0] != "op"@[0]); }
        assert("expect_file"@ != "key"@) by { assert("expect_file"@.len() != "key"@.len() || "expect_file"@[0] != "key"@[0]); }
        assert("expect_file"@ != "from"@) by { assert("expect_file"@.len() != "from"@.len() || "expect_file"@[0] != "from"@[0]); }
        assert("expect_file"@ != "to"@) by { assert("expect_file"@.len() != "to"@.len() || "expect_file"@[0] != "to"@[0]); }
        assert(!has_key(a2, "expect_file"@));
        lemma_opt_piece(a2, "expect_file"@, expect_file);
        let a3 = a2 + opt_f("expect_file"@, expect_file);
        assert("expect_domain"@ != "op"@) by { assert("expect_domain"@.len() != "op"@.len() || "expect_domain"@[0] != "op"@[0]); }
        assert("expect_domain"@ != "key"@) by { assert("expect_domain"@.len() != "key"@.len() || "expect_domain"@[0] != "key"@[0]); }
        assert("expect_domain"@ != "from"@) by { assert("expect_domain"@.len() != "from"@.len() || "expect_domain"@[0] != "from"@[0]); }
        assert("expect_domain"@ != "to"@) by { assert("expect_domain"@.len() != "to"@.len() || "expect_domain"@[0] != "to"@[0]); }
        assert("expect_domain"@ != "expect_file"@) by { assert("expect_domain"@.len() != "expect_file"@.len() || "expect_domain"@[7] != "expect_file"@[7]); }
        assert(!has_key(a3, "expect_domain"@));
        lemma_opt_piece(a3, "expect_domain"@, expect_domain);
        let a4 = a3 + opt_f("expect_domain"@, expect_domain);
        assert("expect_layer"@ != "op"@) by { assert("expect_layer"@.len() != "op"@.len() || "expect_layer"@[0] != "op"@[0]); }
        assert("expect_layer"@ != "key"@) by { assert("expect_layer"@.len() != "key"@.len() || "expect_layer"@[0] != "key"@[0]); }
        assert("expect_layer"@ != "from"@) by { assert("expect_layer"@.len() != "from"@.len() || "expect_layer"@[0] != "from"@[0]); }
        assert("expect_layer"@ != "to"@) by { assert("expect_layer"@.len() != "to"@.len() || "expect_layer"@[0] != "to"@[0]); }
        assert("expect_layer"@ != "expect_file"@) by { assert("expect_layer"@.len() != "expect_file"@.len() || "expect_layer"@[7] != "expect_file"@[7]); }
        assert("expect_layer"@ != "expect_domain"@) by { assert("expect_layer"@.len() != "expect_domain"@.len() || "expect_layer"@[7] != "expect_domain"@[7]); }
        assert(!has_key(a4, "expect_layer"@));
        lemma_opt_piece(a4, "expect_layer"@, expect_layer);
        let a5 = a4 + opt_f("expect_layer"@, expect_layer);
        assert(rule_fs(r) =~= a5);
    }
}

#[verifier::spinoff_prover]
proof fn lemma_rule_ok_exclude_key(r: RuleView)
    requires
        r is ExcludeKey,
    ensures
        fields_ok(Seq::empty(), rule_fs(r)),
{
    broadcast use lemma_has_key_concat, lemma_has_key_one, lemma_has_key_empty, lemma_has_key_opt;

    lemma_keys_ok();
    reveal_strlit("op");
    reveal_strlit("key");
    reveal_strlit("expected_matches");
    let e = Seq::<(Seq<char>, ScalarView)>::empty();
    let o = text_f("op"@, rule_op(r));
    lemma_text_piece(e, "op"@, rule_op(r));
    assert(e + o =~= o);
    if let RuleView::ExcludeKey { key, expected_matches } = r {
        assert("key"@ != "op"@) by { assert("key"@.len() != "op"@.len() || "key"@[0] != "op"@[0]); }
        assert(!has_key(o, "key"@));
        lemma_text_piece(o, "key"@, key);
        let a0 = o + text_f("key"@, key);
        assert("expected_matches"@ != "op"@) by { assert("expected_matches"@.len() != "op"@.len() || "expected_matches"@[0] != "op"@[0]); }
        assert("expected_matches"@ != "key"@) by { assert("expected_matches"@.len() != "key"@.len() || "expected_matches"@[0] != "key"@[0]); }
        assert(!has_key(a0, "expected_matches"@));
        lemma_int_piece(a0, "expected_matches"@, expected_matches);
        let a1 = a0 + int_f("expected_matches"@, expected_matches);
        assert(rule_fs(r) =~= a1);
    }
}

#[verifier::spinoff_prover]
proof fn lemma_rule_ok_exclude_key_prefix(r: RuleView)
    requires
        r is ExcludeKeyPrefix,
    ensures
        fields_ok(Seq::empty(), rule_fs(r)),
{
    broadcast use lemma_has_key_concat, lemma_has_key_one, lemma_has_key_empty, lemma_has_key_opt;

    lemma_keys_ok();
    reveal_strlit("op");
    reveal_strlit("prefix");
    reveal_strlit("expected_matches");
    let e = Seq::<(Seq<char>, ScalarView)>::empty();
    let o = text_f("op"@, rule_op(r));
    lemma_text_piece(e, "op"@, rule_op(r));
    assert(e + o =~= o);
    if let RuleView::ExcludeKeyPrefix { prefix, expected_matches } = r {
        assert("prefix"@ != "op"@) by { assert("prefix"@.len() != "op"@.len() || "prefix"@[0] != "op"@[0]); }
        assert(!has_key(o, "prefix"@));
        lemma_text_piece(o, "prefix"@, prefix);
        let a0 = o + text_f("prefix"@, prefix);
        assert("expected_matches"@ != "op"@) by { assert("expected_matches"@.len() != "op"@.len() || "expected_matches"@[0] != "op"@[0]); }
        assert("expected_matches"@ != "prefix"@) by { assert("expected_matches"@.len() != "prefix"@.len() || "expected_matches"@[0] != "prefix"@[0]); }
        assert(!has_key(a0, "expected_matches"@));
        lemma_int_piece(a0, "expected_matches"@, expected_matches);
        let a1 = a0 + int_f("expected_matches"@, expected_matches);
        assert(rule_fs(r) =~= a1);
    }
}

#[verifier::spinoff_prover]
proof fn lemma_rule_ok_exclude_file_prefix(r: RuleView)
    requires
        r is ExcludeFilePrefix,
    ensures
        fields_ok(Seq::empty(), rule_fs(r)),
{
    broadcast use lemma_has_key_concat, lemma_has_key_one, lemma_has_key_empty, lemma_has_key_opt;

    lemma_keys_ok();
    reveal_strlit("op");
    reveal_strlit("prefix");
    reveal_strlit("expected_matches");
    let e = Seq::<(Seq<char>, ScalarView)>::empty();
    let o = text_f("op"@, rule_op(r));
    lemma_text_piece(e, "op"@, rule_op(r));
    assert(e + o =~= o);
    if let RuleView::ExcludeFilePrefix { prefix, expected_matches } = r {
        assert("prefix"@ != "op"@) by { assert("prefix"@.len() != "op"@.len() || "prefix"@[0] != "op"@[0]); }
        assert(!has_key(o, "prefix"@));
        lemma_text_piece(o, "prefix"@, prefix);
        let a0 = o + text_f("prefix"@, prefix);
        assert("expected_matches"@ != "op"@) by { assert("expected_matches"@.len() != "op"@.len() || "expected_matches"@[0] != "op"@[0]); }
        assert("expected_matches"@ != "prefix"@) by { assert("expected_matches"@.len() != "prefix"@.len() || "expected_matches"@[0] != "prefix"@[0]); }
        assert(!has_key(a0, "expected_matches"@));
        lemma_int_piece(a0, "expected_matches"@, expected_matches);
        let a1 = a0 + int_f("expected_matches"@, expected_matches);
        assert(rule_fs(r) =~= a1);
    }
}

#[verifier::spinoff_prover]
proof fn lemma_rule_ok_exclude_file(r: RuleView)
    requires
        r is ExcludeFile,
    ensures
        fields_ok(Seq::empty(), rule_fs(r)),
{
    broadcast use lemma_has_key_concat, lemma_has_key_one, lemma_has_key_empty, lemma_has_key_opt;

    lemma_keys_ok();
    reveal_strlit("op");
    reveal_strlit("file");
    reveal_strlit("expected_matches");
    let e = Seq::<(Seq<char>, ScalarView)>::empty();
    let o = text_f("op"@, rule_op(r));
    lemma_text_piece(e, "op"@, rule_op(r));
    assert(e + o =~= o);
    if let RuleView::ExcludeFile { file, expected_matches } = r {
        assert("file"@ != "op"@) by { assert("file"@.len() != "op"@.len() || "file"@[0] != "op"@[0]); }
        assert(!has_key(o, "file"@));
        lemma_text_piece(o, "file"@, file);
        let a0 = o + text_f("file"@, file);
        assert("expected_matches"@ != "op"@) by { assert("expected_matches"@.len() != "op"@.len() || "expected_matches"@[0] != "op"@[0]); }
        assert("expected_matches"@ != "file"@) by { assert("expected_matches"@.len() != "file"@.len() || "expected_matches"@[0] != "file"@[0]); }
        assert(!has_key(a0, "expected_matches"@));
        lemma_int_piece(a0, "expected_matches"@, expected_matches);
        let a1 = a0 + int_f("expected_matches"@, expected_matches);
        assert(rule_fs(r) =~= a1);
    }
}

#[verifier::spinoff_prover]
#[verifier::rlimit(100)]
proof fn lemma_rule_ok_override_region(r: RuleView)
    requires
        r is OverrideRegion,
    ensures
        fields_ok(Seq::empty(), rule_fs(r)),
{
    broadcast use lemma_has_key_concat, lemma_has_key_one, lemma_has_key_empty, lemma_has_key_opt;

    lemma_keys_ok();
    reveal_strlit("op");
    reveal_strlit("key");
    reveal_strlit("from_hash");
    reveal_strlit("to_hash");
    reveal_strlit("from_summary");
    reveal_strlit("to_summary");
    reveal_strlit("expect_file");
    reveal_strlit("to_file");
    reveal_strlit("expect_domain");
    reveal_strlit("expect_layer");
    let e = Seq::<(Seq<char>, ScalarView)>::empty();
    let o = text_f("op"@, rule_op(r));
    lemma_text_piece(e, "op"@, rule_op(r));
    assert(e + o =~= o);
    if let RuleView::OverrideRegion { key, from_hash, to_hash, from_summary, to_summary, expect_file, to_file, expect_domain, expect_layer } = r {
        assert("key"@ != "op"@) by { assert("key"@.len() != "op"@.len() || "key"@[0] != "op"@[0]); }
        assert(!has_key(o, "key"@));
        lemma_text_piece(o, "key"@, key);
        let a0 = o + text_f("key"@, key);
        assert("from_hash"@ != "op"@) by { assert("from_hash"@.len() != "op"@.len() || "from_hash"@[0] != "op"@[0]); }
        assert("from_hash"@ != "key"@) by { assert("from_hash"@.len() != "key"@.len() || "from_hash"@[0] != "key"@[0]); }
        assert(!has_key(a0, "from_hash"@));
        lemma_opt_piece(a0, "from_hash"@, from_hash);
        let a1 = a0 + opt_f("from_hash"@, from_hash);
        assert("to_hash"@ != "op"@) by { assert("to_hash"@.len() != "op"@.len() || "to_hash"@[0] != "op"@[0]); }
        assert("to_hash"@ != "key"@) by { assert("to_hash"@.len() != "key"@.len() || "to_hash"@[0] != "key"@[0]); }
        assert("to_hash"@ != "from_hash"@) by { assert("to_hash"@.len() != "from_hash"@.len() || "to_hash"@[0] != "from_hash"@[0]); }
        assert(!has_key(a1, "to_hash"@));
        lemma_opt_piece(a1, "to_hash"@, to_hash);
        let a2 = a1 + opt_f("to_hash"@, to_hash);
        assert("from_summary"@ != "op"@) by { assert("from_summary"@.len() != "op"@.len() || "from_summary"@[0] != "op"@[0]); }
        assert("from_summary"@ != "key"@) by { assert("from_summary"@.len() != "key"@.len() || "from_summary"@[0] != "key"@[0]); }
        assert("from_summary"@ != "from_hash"@) by { assert("from_summary"@.len() != "from_hash"@.len() || "from_summary"@[5] != "from_hash"@[5]); }
        assert("from_summary"@ != "to_hash"@) by { assert("from_summary"@.len() != "to_hash"@.len() || "from_summary"@[0] != "to_hash"@[0]); }
        assert(!has_key(a2, "from_summary"@));
        lemma_opt_piece(a2, "from_summary"@, from_summary);
        let a3 = a2 + opt_f("from_summary"@, from_summary);
        assert("to_summary"@ != "op"@) by { assert("to_summary"@.len() != "op"@.len() || "to_summary"@[0] != "op"@[0]); }
        assert("to_summary"@ != "key"@) by { assert("to_summary"@.len() != "key"@.len() || "to_summary"@[0] != "key"@[0]); }
        assert("to_summary"@ != "from_hash"@) by { assert("to_summary"@.len() != "from_hash"@.len() || "to_summary"@[0] != "from_hash"@[0]); }
        assert("to_summary"@ != "to_hash"@) by { assert("to_summary"@.len() != "to_hash"@.len() || "to_summary"@[3] != "to_hash"@[3]); }
        assert("to_summary"@ != "from_summary"@) by { assert("to_summary"@.len() != "from_summary"@.len() || "to_summary"@[0] != "from_summary"@[0]); }
        assert(!has_key(a3, "to_summary"@));
        lemma_opt_piece(a3, "to_summary"@, to_summary);
        let a4 = a3 + opt_f("to_summary"@, to_summary);
        assert("expect_file"@ != "op"@) by { assert("expect_file"@.len() != "op"@.len() || "expect_file"@[0] != "op"@[0]); }
        assert("expect_file"@ != "key"@) by { assert("expect_file"@.len() != "key"@.len() || "expect_file"@[0] != "key"@[0]); }
        assert("expect_file"@ != "from_hash"@) by { assert("expect_file"@.len() != "from_hash"@.len() || "expect_file"@[0] != "from_hash"@[0]); }
        assert("expect_file"@ != "to_hash"@) by { assert("expect_file"@.len() != "to_hash"@.len() || "expect_file"@[0] != "to_hash"@[0]); }
        assert("expect_file"@ != "from_summary"@) by { assert("expect_file"@.len() != "from_summary"@.len() || "expect_file"@[0] != "from_summary"@[0]); }
        assert("expect_file"@ != "to_summary"@) by { assert("expect_file"@.len() != "to_summary"@.len() || "expect_file"@[0] != "to_summary"@[0]); }
        assert(!has_key(a4, "expect_file"@));
        lemma_opt_piece(a4, "expect_file"@, expect_file);
        let a5 = a4 + opt_f("expect_file"@, expect_file);
        assert("to_file"@ != "op"@) by { assert("to_file"@.len() != "op"@.len() || "to_file"@[0] != "op"@[0]); }
        assert("to_file"@ != "key"@) by { assert("to_file"@.len() != "key"@.len() || "to_file"@[0] != "key"@[0]); }
        assert("to_file"@ != "from_hash"@) by { assert("to_file"@.len() != "from_hash"@.len() || "to_file"@[0] != "from_hash"@[0]); }
        assert("to_file"@ != "to_hash"@) by { assert("to_file"@.len() != "to_hash"@.len() || "to_file"@[3] != "to_hash"@[3]); }
        assert("to_file"@ != "from_summary"@) by { assert("to_file"@.len() != "from_summary"@.len() || "to_file"@[0] != "from_summary"@[0]); }
        assert("to_file"@ != "to_summary"@) by { assert("to_file"@.len() != "to_summary"@.len() || "to_file"@[3] != "to_summary"@[3]); }
        assert("to_file"@ != "expect_file"@) by { assert("to_file"@.len() != "expect_file"@.len() || "to_file"@[0] != "expect_file"@[0]); }
        assert(!has_key(a5, "to_file"@));
        lemma_opt_piece(a5, "to_file"@, to_file);
        let a6 = a5 + opt_f("to_file"@, to_file);
        assert("expect_domain"@ != "op"@) by { assert("expect_domain"@.len() != "op"@.len() || "expect_domain"@[0] != "op"@[0]); }
        assert("expect_domain"@ != "key"@) by { assert("expect_domain"@.len() != "key"@.len() || "expect_domain"@[0] != "key"@[0]); }
        assert("expect_domain"@ != "from_hash"@) by { assert("expect_domain"@.len() != "from_hash"@.len() || "expect_domain"@[0] != "from_hash"@[0]); }
        assert("expect_domain"@ != "to_hash"@) by { assert("expect_domain"@.len() != "to_hash"@.len() || "expect_domain"@[0] != "to_hash"@[0]); }
        assert("expect_domain"@ != "from_summary"@) by { assert("expect_domain"@.len() != "from_summary"@.len() || "expect_domain"@[0] != "from_summary"@[0]); }
        assert("expect_domain"@ != "to_summary"@) by { assert("expect_domain"@.len() != "to_summary"@.len() || "expect_domain"@[0] != "to_summary"@[0]); }
        assert("expect_domain"@ != "expect_file"@) by { assert("expect_domain"@.len() != "expect_file"@.len() || "expect_domain"@[7] != "expect_file"@[7]); }
        assert("expect_domain"@ != "to_file"@) by { assert("expect_domain"@.len() != "to_file"@.len() || "expect_domain"@[0] != "to_file"@[0]); }
        assert(!has_key(a6, "expect_domain"@));
        lemma_opt_piece(a6, "expect_domain"@, expect_domain);
        let a7 = a6 + opt_f("expect_domain"@, expect_domain);
        assert("expect_layer"@ != "op"@) by { assert("expect_layer"@.len() != "op"@.len() || "expect_layer"@[0] != "op"@[0]); }
        assert("expect_layer"@ != "key"@) by { assert("expect_layer"@.len() != "key"@.len() || "expect_layer"@[0] != "key"@[0]); }
        assert("expect_layer"@ != "from_hash"@) by { assert("expect_layer"@.len() != "from_hash"@.len() || "expect_layer"@[0] != "from_hash"@[0]); }
        assert("expect_layer"@ != "to_hash"@) by { assert("expect_layer"@.len() != "to_hash"@.len() || "expect_layer"@[0] != "to_hash"@[0]); }
        assert("expect_layer"@ != "from_summary"@) by { assert("expect_layer"@.len() != "from_summary"@.len() || "expect_layer"@[0] != "from_summary"@[0]); }
        assert("expect_layer"@ != "to_summary"@) by { assert("expect_layer"@.len() != "to_summary"@.len() || "expect_layer"@[0] != "to_summary"@[0]); }
        assert("expect_layer"@ != "expect_file"@) by { assert("expect_layer"@.len() != "expect_file"@.len() || "expect_layer"@[7] != "expect_file"@[7]); }
        assert("expect_layer"@ != "to_file"@) by { assert("expect_layer"@.len() != "to_file"@.len() || "expect_layer"@[0] != "to_file"@[0]); }
        assert("expect_layer"@ != "expect_domain"@) by { assert("expect_layer"@.len() != "expect_domain"@.len() || "expect_layer"@[7] != "expect_domain"@[7]); }
        assert(!has_key(a7, "expect_layer"@));
        lemma_opt_piece(a7, "expect_layer"@, expect_layer);
        let a8 = a7 + opt_f("expect_layer"@, expect_layer);
        assert(rule_fs(r) =~= a8);
    }
}

#[verifier::spinoff_prover]
proof fn lemma_rule_ok_materialize(r: RuleView)
    requires
        r is MaterializeRegion,
    ensures
        fields_ok(Seq::empty(), rule_fs(r)),
{
    broadcast use lemma_has_key_concat, lemma_has_key_one, lemma_has_key_empty, lemma_has_key_opt;

    lemma_keys_ok();
    reveal_strlit("op");
    reveal_strlit("key");
    reveal_strlit("kind");
    reveal_strlit("domain");
    reveal_strlit("layer");
    reveal_strlit("file");
    reveal_strlit("summary");
    reveal_strlit("hash");
    reveal_strlit("status");
    let e = Seq::<(Seq<char>, ScalarView)>::empty();
    let o = text_f("op"@, rule_op(r));
    lemma_text_piece(e, "op"@, rule_op(r));
    assert(e + o =~= o);
    if let RuleView::MaterializeRegion { key, kind, domain, layer, file, summary, hash, status } = r {
        assert("key"@ != "op"@) by { assert("key"@.len() != "op"@.len() || "key"@[0] != "op"@[0]); }
        assert(!has_key(o, "key"@));
        lemma_text_piece(o, "key"@, key);
        let a0 = o + text_f("key"@, key);
        assert("kind"@ != "op"@) by { assert("kind"@.len() != "op"@.len() || "kind"@[0] != "op"@[0]); }
        assert("kind"@ != "key"@) by { assert("kind"@.len() != "key"@.len() || "kind"@[1] != "key"@[1]); }
        assert(!has_key(a0, "kind"@));
        lemma_text_piece(a0, "kind"@, kind);
        let a1 = a0 + text_f("kind"@, kind);
        assert("domain"@ != "op"@) by { assert("domain"@.len() != "op"@.len() || "domain"@[0] != "op"@[0]); }
        assert("domain"@ != "key"@) by { assert("domain"@.len() != "key"@.len() || "domain"@[0] != "key"@[0]); }
        assert("domain"@ != "kind"@) by { assert("domain"@.len() != "kind"@.len() || "domain"@[0] != "kind"@[0]); }
        assert(!has_key(a1, "domain"@));
        lemma_opt_piece(a1, "domain"@, domain);
        let a2 = a1 + opt_f("domain"@, domain);
        assert("layer"@ != "op"@) by { assert("layer"@.len() != "op"@.len() || "layer"@[0] != "op"@[0]); }
        assert("layer"@ != "key"@) by { assert("layer"@.len() != "key"@.len() || "layer"@[0] != "key"@[0]); }
        assert("layer"@ != "kind"@) by { assert("layer"@.len() != "kind"@.len() || "layer"@[0] != "kind"@[0]); }
        assert("layer"@ != "domain"@) by { assert("layer"@.len() != "domain"@.len() || "layer"@[0] != "domain"@[0]); }
        assert(!has_key(a2, "layer"@));
        lemma_opt_piece(a2, "layer"@, layer);
        let a3 = a2 + opt_f("layer"@, layer);
        assert("file"@ != "op"@) by { assert("file"@.len() != "op"@.len() || "file"@[0] != "op"@[0]); }
        assert("file"@ != "key"@) by { assert("file"@.len() != "key"@.len() || "file"@[0] != "key"@[0]); }
        assert("file"@ != "kind"@) by { assert("file"@.len() != "kind"@.len() || "file"@[0] != "kind"@[0]); }
        assert("file"@ != "domain"@) by { assert("file"@.len() != "domain"@.len() || "file"@[0] != "domain"@[0]); }
        assert("file"@ != "layer"@) by { assert("file"@.len() != "layer"@.len() || "file"@[0] != "layer"@[0]); }
        assert(!has_key(a3, "file"@));
        lemma_text_piece(a3, "file"@, file);
        let a4 = a3 + text_f("file"@, file);
        assert("summary"@ != "op"@) by { assert("summary"@.len() != "op"@.len() || "summary"@[0] != "op"@[0]); }
        assert("summary"@ != "key"@) by { assert("summary"@.len() != "key"@.len() || "summary"@[0] != "key"@[0]); }
        assert("summary"@ != "kind"@) by { assert("summary"@.len() != "kind"@.len() || "summary"@[0] != "kind"@[0]); }
        assert("summary"@ != "domain"@) by { assert("summary"@.len() != "domain"@.len() || "summary"@[0] != "domain"@[0]); }
        assert("summary"@ != "layer"@) by { assert("summary"@.len() != "layer"@.len() || "summary"@[0] != "layer"@[0]); }
        assert("summary"@ != "file"@) by { assert("summary"@.len() != "file"@.len() || "summary"@[0] != "file"@[0]); }
        assert(!has_key(a4, "summary"@));
        lemma_text_piece(a4, "summary"@, summary);
        let a5 = a4 + text_f("summary"@, summary);
        assert("hash"@ != "op"@) by { assert("hash"@.len() != "op"@.len() || "hash"@[0] != "op"@[0]); }
        assert("hash"@ != "key"@) by { assert("hash"@.len() != "key"@.len() || "hash"@[0] != "key"@[0]); }
        assert("hash"@ != "kind"@) by { assert("hash"@.len() != "kind"@.len() || "hash"@[0] != "kind"@[0]); }
        assert("hash"@ != "domain"@) by { assert("hash"@.len() != "domain"@.len() || "hash"@[0] != "domain"@[0]); }
        assert("hash"@ != "layer"@) by { assert("hash"@.len() != "layer"@.len() || "hash"@[0] != "layer"@[0]); }
        assert("hash"@ != "file"@) by { assert("hash"@.len() != "file"@.len() || "hash"@[0] != "file"@[0]); }
        assert("hash"@ != "summary"@) by { assert("hash"@.len() != "summary"@.len() || "hash"@[0] != "summary"@[0]); }
        assert(!has_key(a5, "hash"@));
        lemma_text_piece(a5, "hash"@, hash);
        let a6 = a5 + text_f("hash"@, hash);
        assert("status"@ != "op"@) by { assert("status"@.len() != "op"@.len() || "status"@[0] != "op"@[0]); }
        assert("status"@ != "key"@) by { assert("status"@.len() != "key"@.len() || "status"@[0] != "key"@[0]); }
        assert("status"@ != "kind"@) by { assert("status"@.len() != "kind"@.len() || "status"@[0] != "kind"@[0]); }
        assert("status"@ != "domain"@) by { assert("status"@.len() != "domain"@.len() || "status"@[0] != "domain"@[0]); }
        assert("status"@ != "layer"@) by { assert("status"@.len() != "layer"@.len() || "status"@[0] != "layer"@[0]); }
        assert("status"@ != "file"@) by { assert("status"@.len() != "file"@.len() || "status"@[0] != "file"@[0]); }
        assert("status"@ != "summary"@) by { assert("status"@.len() != "summary"@.len() || "status"@[1] != "summary"@[1]); }
        assert("status"@ != "hash"@) by { assert("status"@.len() != "hash"@.len() || "status"@[0] != "hash"@[0]); }
        assert(!has_key(a6, "status"@));
        lemma_text_piece(a6, "status"@, status);
        let a7 = a6 + text_f("status"@, status);
        assert(rule_fs(r) =~= a7);
    }
}

proof fn lemma_rule_ok(r: RuleView)
    ensures
        fields_ok(Seq::empty(), rule_fs(r)),
{
    match r {
        RuleView::OverrideHash { .. } => lemma_rule_ok_override_hash(r),
        RuleView::ExcludeKey { .. } => lemma_rule_ok_exclude_key(r),
        RuleView::ExcludeKeyPrefix { .. } => lemma_rule_ok_exclude_key_prefix(r),
        RuleView::ExcludeFilePrefix { .. } => lemma_rule_ok_exclude_file_prefix(r),
        RuleView::ExcludeFile { .. } => lemma_rule_ok_exclude_file(r),
        RuleView::OverrideRegion { .. } => lemma_rule_ok_override_region(r),
        RuleView::MaterializeRegion { .. } => lemma_rule_ok_materialize(r),
    }
}


// ---------------------------------------------------------------------------
// Reading the canonical snapshot text.
// ---------------------------------------------------------------------------

pub open spec fn rule_tables(rs: Seq<RuleView>) -> Seq<Seq<(Seq<char>, ScalarView)>> {
    Seq::new(rs.len(), |i: int| rule_fs(rs[i]))
}

/// The document the canonical text of a snapshot holds.
pub open spec fn snap_doc(v: SnapshotView) -> DocView {
    DocView {
        root: root_fs(v),
        reconstruction: Some(recon_fs(v)),
        measures: Some(meas_fs(v.measures)),
        rules: rule_tables(sorted_rules(v.rules)),
    }
}

pub open spec fn all_plain(ls: Seq<Seq<char>>) -> bool {
    forall|k: int| 0 <= k < ls.len() ==> plain_line(#[trigger] ls[k])
}

proof fn lemma_plain_concat(a: Seq<Seq<char>>, b: Seq<Seq<char>>)
    requires
        all_plain(a),
        all_plain(b),
    ensures
        all_plain(a + b),
{
    assert forall|k: int| 0 <= k < (a + b).len() implies plain_line(#[trigger] (a + b)[k]) by {
        if k < a.len() {
            assert((a + b)[k] == a[k]);
        } else {
            assert((a + b)[k] == b[k - a.len()]);
        }
    }
}

proof fn lemma_fields_plain(fs: Seq<(Seq<char>, ScalarView)>)
    requires
        fields_ok(Seq::empty(), fs),
    ensures
        all_plain(field_lines(fs)),
{
    assert forall|i: int| 0 <= i < fs.len() implies key_ok(#[trigger] fs[i].0) && renderable(fs[i].1) by {
        let g = fs[i].0;
        assert(key_ok(g));
        assert(renderable(fs[i].1));
    }
    lemma_field_lines_plain(fs);
}

proof fn lemma_hdr_plain(name: Seq<char>)
    requires
        plain_line(name),
    ensures
        all_plain(hdr(name)),
{
    assert forall|k: int| 0 <= k < hdr(name).len() implies plain_line(#[trigger] hdr(name)[k]) by {
        if k == 1 {
            assert(hdr(name)[1] == name);
        } else {
            assert(hdr(name)[0] == Seq::<char>::empty());
        }
    }
}

proof fn lemma_rules_lines_plain(rs: Seq<RuleView>)
    ensures
        all_plain(rules_lines(rs)),
    decreases rs.len(),
{
    reveal_strlit("[[rules]]");
    if rs.len() > 0 {
        lemma_rules_lines_plain(rs.drop_last());
        lemma_hdr_plain("[[rules]]"@);
        lemma_rule_ok(rs.last());
        lemma_fields_plain(rule_fs(rs.last()));
        lemma_plain_concat(rules_lines(rs.drop_last()), hdr("[[rules]]"@));
        lemma_plain_concat(rules_lines(rs.drop_last()) + hdr("[[rules]]"@), field_lines(rule_fs(rs.last())));
    }
}

#[verifier::spinoff_prover]
proof fn lemma_run_hdr_rules(d: DocView, cur: Section)
    ensures
        run("rules"@, hdr("[[rules]]"@), d, cur) == Some((
            DocView { rules: d.rules.push(Seq::empty()), ..d },
            Section::Rule(d.rules.len() as usize),
        )),
{
    let h = hdr("[[rules]]"@);
    lemma_blank_step("rules"@, d, cur, 0);
    lemma_rules_step(d, cur, 0);
    assert(h[0] == Seq::<char>::empty());
    assert(h.drop_first() =~= seq!["[[rules]]"@]);
    assert(seq!["[[rules]]"@][0] == "[[rules]]"@);
    assert(seq!["[[rules]]"@].drop_first() =~= Seq::<Seq<char>>::empty());
    let d2 = DocView { rules: d.rules.push(Seq::empty()), ..d };
    let c2 = Section::Rule(d.rules.len() as usize);
    assert(run("rules"@, Seq::<Seq<char>>::empty(), d2, c2) == Some((d2, c2)));
    assert(run("rules"@, seq!["[[rules]]"@], d, cur) == Some((d2, c2)));
    assert(run("rules"@, h, d, cur) == run("rules"@, seq!["[[rules]]"@], d, cur));
}

#[verifier::spinoff_prover]
proof fn lemma_run_rules(rs: Seq<RuleView>, d: DocView, cur: Section)
    requires
        d.rules.len() + rs.len() <= usize::MAX,
    ensures
        run("rules"@, rules_lines(rs), d, cur) is Some,
        (run("rules"@, rules_lines(rs), d, cur)->0).0 == (DocView { rules: d.rules + rule_tables(rs), ..d }),
    decreases rs.len(),
{
    if rs.len() == 0 {
        assert(d.rules + rule_tables(rs) =~= d.rules);
    } else {
        let dl = rs.drop_last();
        lemma_run_rules(dl, d, cur);
        let (d1, c1) = run("rules"@, rules_lines(dl), d, cur)->0;
        let h = hdr("[[rules]]"@);
        let fl = field_lines(rule_fs(rs.last()));
        lemma_run_concat("rules"@, rules_lines(dl) + h, fl, d, cur);
        lemma_run_concat("rules"@, rules_lines(dl), h, d, cur);
        lemma_run_hdr_rules(d1, c1);
        let n = d1.rules.len();
        let d2 = DocView { rules: d1.rules.push(Seq::empty()), ..d1 };
        let c2 = Section::Rule(n as usize);
        assert(n == d.rules.len() + dl.len());
        assert((n as usize) as int == n);
        assert(table_of(d2, c2) == Some(Seq::<(Seq<char>, ScalarView)>::empty()));
        lemma_rule_ok(rs.last());
        lemma_run_fields("rules"@, rule_fs(rs.last()), d2, c2);
        assert(Seq::<(Seq<char>, ScalarView)>::empty() + rule_fs(rs.last()) =~= rule_fs(rs.last()));
        assert(d2.rules.update(n as int, rule_fs(rs.last())) =~= d.rules + rule_tables(rs));
    }
}

proof fn lemma_snap_plain(v: SnapshotView)
    requires
        all_ids(v.recipes),
    ensures
        all_plain(snap_lines(v)),
{
    reveal_strlit("[reconstruction]");
    reveal_strlit("[measures]");
    let a = field_lines(root_fs(v));
    let h1 = hdr("[reconstruction]"@);
    let b = field_lines(recon_fs(v));
    let h2 = hdr("[measures]"@);
    let c = field_lines(meas_fs(v.measures));
    let rl = rules_lines(sorted_rules(v.rules));
    lemma_root_ok(v);
    lemma_recon_ok(v);
    lemma_meas_ok(v.measures);
    lemma_fields_plain(root_fs(v));
    lemma_fields_plain(recon_fs(v));
    lemma_fields_plain(meas_fs(v.measures));
    lemma_hdr_plain("[reconstruction]"@);
    lemma_hdr_plain("[measures]"@);
    lemma_rules_lines_plain(sorted_rules(v.rules));
    lemma_plain_concat(a, h1);
    lemma_plain_concat(a + h1, b);
    lemma_plain_concat(a + h1 + b, h2);
    lemma_plain_concat(a + h1 + b + h2, c);
    lemma_plain_concat(a + h1 + b + h2 + c, rl);
}

#[verifier::spinoff_prover]
#[verifier::rlimit(40)]
proof fn lemma_run_hdr(name: Seq<char>, d: DocView, cur: Section, d2: DocView, c2: Section)
    requires
        line_step("rules"@, d, cur, name, 0) == Ok::<(DocView, Section), (int, Seq<char>)>((d2, c2)),
    ensures
        run("rules"@, hdr(name), d, cur) == Some((d2, c2)),
{
    let h = hdr(name);
    lemma_blank_step("rules"@, d, cur, 0);
    assert(h[0] == Seq::<char>::empty());
    assert(h.drop_first() =~= seq![name]);
    assert(seq![name][0] == name);
    assert(seq![name].drop_first() =~= Seq::<Seq<char>>::empty());
    assert(run("rules"@, Seq::<Seq<char>>::empty(), d2, c2) == Some((d2, c2)));
    assert(run("rules"@, seq![name], d, cur) == Some((d2, c2)));
}

#[verifier::spinoff_prover]
#[verifier::rlimit(40)]
proof fn lemma_snap_run(v: SnapshotView)
    requires
        all_ids(v.recipes),
        sorted_rules(v.rules).len() <= usize::MAX,
    ensures
        run("rules"@, snap_lines(v), super::toml::empty_doc(), Section::Root) == Some((
            snap_doc(v),
            (run("rules"@, snap_lines(v), super::toml::empty_doc(), Section::Root)->0).1,
        )),
{
    let a = field_lines(root_fs(v));
    let h1 = hdr("[reconstruction]"@);
    let b = field_lines(recon_fs(v));
    let h2 = hdr("[measures]"@);
    let c = field_lines(meas_fs(v.measures));
    let rs = sorted_rules(v.rules);
    let rl = rules_lines(rs);
    lemma_root_ok(v);
    lemma_recon_ok(v);
    lemma_meas_ok(v.measures);
    let e = Seq::<(Seq<char>, ScalarView)>::empty();
    let d0 = super::toml::empty_doc();
    lemma_run_fields("rules"@, root_fs(v), d0, Section::Root);
    assert(e + root_fs(v) =~= root_fs(v));
    let d1 = DocView { root: root_fs(v), ..d0 };
    lemma_recon_step("rules"@, d1, Section::Root, 0);
    let d2 = DocView { reconstruction: Some(e), ..d1 };
    lemma_run_hdr("[reconstruction]"@, d1, Section::Root, d2, Section::Reconstruction);
    lemma_run_fields("rules"@, recon_fs(v), d2, Section::Reconstruction);
    assert(e + recon_fs(v) =~= recon_fs(v));
    let d3 = DocView { reconstruction: Some(recon_fs(v)), ..d2 };
    lemma_measures_step("rules"@, d3, Section::Reconstruction, 0);
    let d4 = DocView { measures: Some(e), ..d3 };
    lemma_run_hdr("[measures]"@, d3, Section::Reconstruction, d4, Section::Measures);
    lemma_run_fields("rules"@, meas_fs(v.measures), d4, Section::Measures);
    assert(e + meas_fs(v.measures) =~= meas_fs(v.measures));
    let d5 = DocView { measures: Some(meas_fs(v.measures)), ..d4 };
    lemma_run_rules(rs, d5, Section::Measures);
    lemma_run_concat("rules"@, a, h1, d0, Section::Root);
    lemma_run_concat("rules"@, a + h1, b, d0, Section::Root);
    lemma_run_concat("rules"@, a + h1 + b, h2, d0, Section::Root);
    lemma_run_concat("rules"@, a + h1 + b + h2, c, d0, Section::Root);
    lemma_run_concat("rules"@, a + h1 + b + h2 + c, rl, d0, Section::Root);
    assert(d5.rules + rule_tables(rs) =~= rule_tables(rs));
}

/// The canonical text of a snapshot reads as its canonical document.
pub proof fn lemma_snap_document(v: SnapshotView)
    requires
        all_ids(v.recipes),
        sorted_rules(v.rules).len() <= usize::MAX,
    ensures
        super::toml::raw_document(render_text(v)) == Ok::<DocView, (int, Seq<char>)>(snap_doc(v)),
{
    lemma_snap_plain(v);
    lemma_snap_run(v);
    lemma_snap_text(v);
    lemma_raw_document_run("rules"@, snap_lines(v));
}


// ---------------------------------------------------------------------------
// Looking up the canonical tables.
// ---------------------------------------------------------------------------

pub broadcast proof fn lemma_get_concat(a: Seq<(Seq<char>, ScalarView)>, b: Seq<(Seq<char>, ScalarView)>, k: Seq<char>)
    ensures
        #[trigger] table_get(a + b, k) == (if table_get(a, k) is Some {
            table_get(a, k)
        } else {
            table_get(b, k)
        }),
    decreases a.len(),
{
    if a.len() == 0 {
        assert(a + b =~= b);
    } else {
        assert((a + b)[0] == a[0]);
        assert((a + b).drop_first() =~= a.drop_first() + b);
        lemma_get_concat(a.drop_first(), b, k);
    }
}

pub broadcast proof fn lemma_get_one(k2: Seq<char>, v: ScalarView, k: Seq<char>)
    ensures
        #[trigger] table_get(one(k2, v), k) == (if k2 == k {
            Some(v)
        } else {
            None
        }),
{
    assert(one(k2, v)[0] == (k2, v));
    assert(one(k2, v).drop_first() =~= Seq::<(Seq<char>, ScalarView)>::empty());
    assert(table_get(Seq::<(Seq<char>, ScalarView)>::empty(), k) is None);
    assert(table_get(one(k2, v), k) == (if one(k2, v)[0].0 == k {
        Some(one(k2, v)[0].1)
    } else {
        table_get(one(k2, v).drop_first(), k)
    }));
}

pub broadcast proof fn lemma_get_opt(k2: Seq<char>, o: Option<Seq<char>>, k: Seq<char>)
    ensures
        #[trigger] table_get(opt_f(k2, o), k) == (if k2 == k && o is Some {
            Some(ScalarView::Text(o->0))
        } else {
            None
        }),
{
    reveal(opt_f);
    if o is Some {
        lemma_get_one(k2, ScalarView::Text(o->0), k);
    }
}

pub broadcast proof fn lemma_get_empty(k: Seq<char>)
    ensures
        #[trigger] table_get(Seq::<(Seq<char>, ScalarView)>::empty(), k) is None,
{
}

/// A table whose keys are all allowed has no unknown key.
proof fn lemma_unknown_none(t: Seq<(Seq<char>, ScalarView)>, allowed: Seq<Seq<char>>)
    requires
        forall|k: Seq<char>| has_key(t, k) ==> allowed.contains(k),
    ensures
        unknown_key(t, allowed) is None,
    decreases t.len(),
{
    if t.len() > 0 {
        assert(has_key(t, t[0].0));
        let d = t.drop_first();
        assert forall|k: Seq<char>| has_key(d, k) implies allowed.contains(k) by {
            let i = choose|i: int| 0 <= i < d.len() && #[trigger] d[i].0 == k;
            assert(t[i + 1] == d[i]);
            assert(has_key(t, k));
        }
        lemma_unknown_none(d, allowed);
    }
}

proof fn lemma_root_known(v: SnapshotView)
    ensures
        unknown_key(root_fs(v), root_keys()) is None,
{
    broadcast use lemma_has_key_concat, lemma_has_key_one, lemma_has_key_empty, lemma_has_key_opt;

    assert forall|k: Seq<char>| has_key(root_fs(v), k) implies root_keys().contains(k) by {
        if k == "schema"@ {
            assert(root_keys()[0] == k);
        } else if k == "id"@ {
            assert(root_keys()[1] == k);
        } else if k == "state"@ {
            assert(root_keys()[2] == k);
        } else if k == "predecessor"@ {
            assert(root_keys()[3] == k);
        } else {
            assert(root_keys()[4] == k);
        }
    }
    lemma_unknown_none(root_fs(v), root_keys());
}

/// The header of the canonical root is the header it was rendered from.
#[verifier::spinoff_prover]
#[verifier::rlimit(40)]
proof fn lemma_header_back(v: SnapshotView, root: Seq<(Seq<char>, ScalarView)>)
    requires
        header_of(root) is Ok,
        (header_of(root)->Ok_0).schema == v.schema,
        (header_of(root)->Ok_0).id == v.id,
        (header_of(root)->Ok_0).state == v.state,
        (header_of(root)->Ok_0).predecessor == v.predecessor,
        (header_of(root)->Ok_0).justification == v.justification,
    ensures
        header_of(root_fs(v)) == header_of(root),
{
    broadcast use lemma_get_concat, lemma_get_one, lemma_get_opt, lemma_get_empty;

    reveal_strlit("schema");
    reveal_strlit("id");
    reveal_strlit("state");
    reveal_strlit("predecessor");
    reveal_strlit("justification");
    reveal_strlit("FROZEN");
    reveal_strlit("CANDIDATE");
    let r = root_fs(v);
    lemma_root_known(v);
    assert(check_known(root, root_keys(), Seq::empty()) is Ok);
    assert(check_known(r, root_keys(), Seq::empty()) == check_known(root, root_keys(), Seq::empty()));
    assert(table_get(r, "schema"@) == table_get(root, "schema"@));
    assert(table_get(r, "id"@) == table_get(root, "id"@));
    assert(table_get(r, "state"@) == table_get(root, "state"@));
    assert(table_get(r, "predecessor"@) == table_get(root, "predecessor"@));
    assert(table_get(r, "justification"@) == table_get(root, "justification"@));
}

proof fn lemma_hex_char(c: char)
    requires
        is_hex_lower(c),
    ensures
        hex_digit_value(c) < 16,
        crate::text::hex_lower(hex_digit_value(c)) == c,
{
}

proof fn lemma_hex_fixed_value(s: Seq<char>)
    requires
        forall|i: int| 0 <= i < s.len() ==> is_hex_lower(#[trigger] s[i]),
    ensures
        crate::text::hex_fixed(hex_value(s), s.len()) == s,
    decreases s.len(),
{
    if s.len() > 0 {
        let d = s.drop_last();
        assert forall|i: int| 0 <= i < d.len() implies is_hex_lower(#[trigger] d[i]) by {
            assert(d[i] == s[i]);
        }
        lemma_hex_fixed_value(d);
        assert(is_hex_lower(s[s.len() - 1]));
        lemma_hex_char(s.last());
        let q = hex_value(d);
        let r = hex_digit_value(s.last());
        vstd::arithmetic::div_mod::lemma_fundamental_div_mod_converse(hex_value(s) as int, 16, q as int, r as int);
        assert(s =~= d.push(s.last()));
    }
}

/// A canonical hash is the rendering of the number it spells.
proof fn lemma_hash_back(h: Seq<char>)
    requires
        hash_well_formed(h),
    ensures
        check_hash(h, Seq::empty()) is Ok,
        fnv_canonical(check_hash(h, Seq::empty())->Ok_0) == h,
{
    reveal_strlit("fnv1a64:");
    let t = h.skip(8);
    assert forall|i: int| 0 <= i < t.len() implies is_hex_lower(#[trigger] t[i]) by {
        assert(t[i] == h[8 + i]);
    }
    lemma_hex_fixed_value(t);
    super::parser::lemma_hex_value_bound(t);
    assert(super::parser::pow16(16) == 0x1_0000_0000_0000_0000) by {
        reveal_with_fuel(super::parser::pow16, 17);
    }
    assert(h.subrange(0, 8) =~= seq!['f', 'n', 'v', '1', 'a', '6', '4', ':']);
    assert(h =~= seq!['f', 'n', 'v', '1', 'a', '6', '4', ':'] + t);
}

proof fn lemma_meas_known(m: Measures)
    ensures
        unknown_key(meas_fs(m), measures_keys()) is None,
{
    broadcast use lemma_has_key_concat, lemma_has_key_one, lemma_has_key_empty;

    assert forall|k: Seq<char>| has_key(meas_fs(m), k) implies measures_keys().contains(k) by {
        if k == "regions"@ {
            assert(measures_keys()[0] == k);
        } else if k == "length"@ {
            assert(measures_keys()[1] == k);
        } else {
            assert(measures_keys()[2] == k);
        }
    }
    lemma_unknown_none(meas_fs(m), measures_keys());
}

/// The measures of the canonical table are the measures it was rendered from.
#[verifier::spinoff_prover]
proof fn lemma_measures_back(m: Measures, t: Option<Seq<(Seq<char>, ScalarView)>>)
    requires
        measures_of(t) == Ok::<Measures, super::FailureView>(m),
    ensures
        measures_of(Some(meas_fs(m))) == measures_of(t),
{
    broadcast use lemma_get_concat, lemma_get_one, lemma_get_empty;

    reveal_strlit("regions");
    reveal_strlit("length");
    reveal_strlit("fnv1a64");
    let x = t->0;
    let r = meas_fs(m);
    lemma_meas_known(m);
    let h = super::parser::req_text(x, "fnv1a64"@, "measures."@)->Ok_0;
    assert(hash_well_formed(h));
    lemma_hash_back(h);
    assert(check_hash(h, "measures.fnv1a64"@) == check_hash(h, Seq::empty()));
    assert(table_get(r, "fnv1a64"@) == table_get(x, "fnv1a64"@));
    assert(table_get(r, "regions"@) == table_get(x, "regions"@));
    assert(table_get(r, "length"@) == table_get(x, "length"@));
    assert(check_known(r, measures_keys(), "measures."@) == check_known(x, measures_keys(), "measures."@));
}

#[verifier::spinoff_prover]
#[verifier::rlimit(80)]
proof fn lemma_rule_back_override_hash(t: Seq<(Seq<char>, ScalarView)>, j: usize, i: usize)
    requires
        rule_of(t, j) is Ok,
        table_get(t, "op"@) == Some(ScalarView::Text("override-hash"@)),
    ensures
        rule_of(rule_fs(rule_of(t, j)->Ok_0), i) == rule_of(t, j),
{
    broadcast use lemma_has_key_concat, lemma_has_key_one, lemma_has_key_empty, lemma_has_key_opt;
    broadcast use lemma_get_concat, lemma_get_one, lemma_get_opt, lemma_get_empty;

    reveal_strlit("op");
    reveal_strlit("key");
    reveal_strlit("from");
    reveal_strlit("to");
    reveal_strlit("expect_file");
    reveal_strlit("expect_domain");
    reveal_strlit("expect_layer");
    reveal_strlit("override-hash");
    reveal_strlit("exclude-key");
    reveal_strlit("exclude-key-prefix");
    reveal_strlit("exclude-file-prefix");
    reveal_strlit("exclude-file");
    reveal_strlit("override-region");
    reveal_strlit("materialize-region");
    let r = rule_of(t, j)->Ok_0;
    assert("override-hash"@ != "exclude-key"@) by { assert("override-hash"@.len() != "exclude-key"@.len() || "override-hash"@[0] != "exclude-key"@[0]); }
    assert("override-hash"@ != "exclude-key-prefix"@) by { assert("override-hash"@.len() != "exclude-key-prefix"@.len() || "override-hash"@[0] != "exclude-key-prefix"@[0]); }
    assert("override-hash"@ != "exclude-file-prefix"@) by { assert("override-hash"@.len() != "exclude-file-prefix"@.len() || "override-hash"@[0] != "exclude-file-prefix"@[0]); }
    assert("override-hash"@ != "exclude-file"@) by { assert("override-hash"@.len() != "exclude-file"@.len() || "override-hash"@[0] != "exclude-file"@[0]); }
    assert("override-hash"@ != "override-region"@) by { assert("override-hash"@.len() != "override-region"@.len() || "override-hash"@[9] != "override-region"@[9]); }
    assert("override-hash"@ != "materialize-region"@) by { assert("override-hash"@.len() != "materialize-region"@.len() || "override-hash"@[0] != "materialize-region"@[0]); }
    let allowed = op_keys("override-hash"@)->0;
    assert(op_keys("override-hash"@) is Some);
    assert(r is OverrideHash);
    assert(rule_op(r) == "override-hash"@);
    assert forall|k: Seq<char>| has_key(rule_fs(r), k) implies allowed.contains(k) && rule_keys().contains(k) by {
        if k == "op"@ {
            assert(allowed[0] == k);
            assert(rule_keys()[0] == k);
        } else if k == "key"@ {
            assert(allowed[1] == k);
            assert(rule_keys()[1] == k);
        } else if k == "from"@ {
            assert(allowed[2] == k);
            assert(rule_keys()[2] == k);
        } else if k == "to"@ {
            assert(allowed[3] == k);
            assert(rule_keys()[3] == k);
        } else if k == "expect_file"@ {
            assert(allowed[4] == k);
            assert(rule_keys()[8] == k);
        } else if k == "expect_domain"@ {
            assert(allowed[5] == k);
            assert(rule_keys()[10] == k);
        } else {
            assert(allowed[6] == k);
            assert(rule_keys()[11] == k);
        }
    }
    lemma_unknown_none(rule_fs(r), allowed);
    lemma_unknown_none(rule_fs(r), rule_keys());
    assert(table_get(rule_fs(r), "op"@) == table_get(t, "op"@));
    assert(table_get(rule_fs(r), "key"@) == table_get(t, "key"@));
    assert(table_get(rule_fs(r), "from"@) == table_get(t, "from"@));
    assert(table_get(rule_fs(r), "to"@) == table_get(t, "to"@));
    assert(table_get(rule_fs(r), "expect_file"@) == table_get(t, "expect_file"@));
    assert(table_get(rule_fs(r), "expect_domain"@) == table_get(t, "expect_domain"@));
    assert(table_get(rule_fs(r), "expect_layer"@) == table_get(t, "expect_layer"@));
}

#[verifier::spinoff_prover]
#[verifier::rlimit(80)]
proof fn lemma_rule_back_exclude_key(t: Seq<(Seq<char>, ScalarView)>, j: usize, i: usize)
    requires
        rule_of(t, j) is Ok,
        table_get(t, "op"@) == Some(ScalarView::Text("exclude-key"@)),
    ensures
        rule_of(rule_fs(rule_of(t, j)->Ok_0), i) == rule_of(t, j),
{
    broadcast use lemma_has_key_concat, lemma_has_key_one, lemma_has_key_empty, lemma_has_key_opt;
    broadcast use lemma_get_concat, lemma_get_one, lemma_get_opt, lemma_get_empty;

    reveal_strlit("op");
    reveal_strlit("key");
    reveal_strlit("expected_matches");
    reveal_strlit("override-hash");
    reveal_strlit("exclude-key");
    reveal_strlit("exclude-key-prefix");
    reveal_strlit("exclude-file-prefix");
    reveal_strlit("exclude-file");
    reveal_strlit("override-region");
    reveal_strlit("materialize-region");
    let r = rule_of(t, j)->Ok_0;
    assert("exclude-key"@ != "override-hash"@) by { assert("exclude-key"@.len() != "override-hash"@.len() || "exclude-key"@[0] != "override-hash"@[0]); }
    assert("exclude-key"@ != "exclude-key-prefix"@) by { assert("exclude-key"@.len() != "exclude-key-prefix"@.len() || "exclude-key"@[0] != "exclude-key-prefix"@[0]); }
    assert("exclude-key"@ != "exclude-file-prefix"@) by { assert("exclude-key"@.len() != "exclude-file-prefix"@.len() || "exclude-key"@[8] != "exclude-file-prefix"@[8]); }
    assert("exclude-key"@ != "exclude-file"@) by { assert("exclude-key"@.len() != "exclude-file"@.len() || "exclude-key"@[8] != "exclude-file"@[8]); }
    assert("exclude-key"@ != "override-region"@) by { assert("exclude-key"@.len() != "override-region"@.len() || "exclude-key"@[0] != "override-region"@[0]); }
    assert("exclude-key"@ != "materialize-region"@) by { assert("exclude-key"@.len() != "materialize-region"@.len() || "exclude-key"@[0] != "materialize-region"@[0]); }
    let allowed = op_keys("exclude-key"@)->0;
    assert(op_keys("exclude-key"@) is Some);
    assert(r is ExcludeKey);
    assert(rule_op(r) == "exclude-key"@);
    assert forall|k: Seq<char>| has_key(rule_fs(r), k) implies allowed.contains(k) && rule_keys().contains(k) by {
        if k == "op"@ {
            assert(allowed[0] == k);
            assert(rule_keys()[0] == k);
        } else if k == "key"@ {
            assert(allowed[1] == k);
            assert(rule_keys()[1] == k);
        } else {
            assert(allowed[2] == k);
            assert(rule_keys()[14] == k);
        }
    }
    lemma_unknown_none(rule_fs(r), allowed);
    lemma_unknown_none(rule_fs(r), rule_keys());
    assert(table_get(rule_fs(r), "op"@) == table_get(t, "op"@));
    assert(table_get(rule_fs(r), "key"@) == table_get(t, "key"@));
    assert(table_get(rule_fs(r), "expected_matches"@) == table_get(t, "expected_matches"@));
}

#[verifier::spinoff_prover]
#[verifier::rlimit(80)]
proof fn lemma_rule_back_exclude_key_prefix(t: Seq<(Seq<char>, ScalarView)>, j: usize, i: usize)
    requires
        rule_of(t, j) is Ok,
        table_get(t, "op"@) == Some(ScalarView::Text("exclude-key-prefix"@)),
    ensures
        rule_of(rule_fs(rule_of(t, j)->Ok_0), i) == rule_of(t, j),
{
    broadcast use lemma_has_key_concat, lemma_has_key_one, lemma_has_key_empty, lemma_has_key_opt;
    broadcast use lemma_get_concat, lemma_get_one, lemma_get_opt, lemma_get_empty;

    reveal_strlit("op");
    reveal_strlit("prefix");
    reveal_strlit("expected_matches");
    reveal_strlit("override-hash");
    reveal_strlit("exclude-key");
    reveal_strlit("exclude-key-prefix");
    reveal_strlit("exclude-file-prefix");
    reveal_strlit("exclude-file");
    reveal_strlit("override-region");
    reveal_strlit("materialize-region");
    let r = rule_of(t, j)->Ok_0;
    assert("exclude-key-prefix"@ != "override-hash"@) by { assert("exclude-key-prefix"@.len() != "override-hash"@.len() || "exclude-key-prefix"@[0] != "override-hash"@[0]); }
    assert("exclude-key-prefix"@ != "exclude-key"@) by { assert("exclude-key-prefix"@.len() != "exclude-key"@.len() || "exclude-key-prefix"@[0] != "exclude-key"@[0]); }
    assert("exclude-key-prefix"@ != "exclude-file-prefix"@) by { assert("exclude-key-prefix"@.len() != "exclude-file-prefix"@.len() || "exclude-key-prefix"@[8] != "exclude-file-prefix"@[8]); }
    assert("exclude-key-prefix"@ != "exclude-file"@) by { assert("exclude-key-prefix"@.len() != "exclude-file"@.len() || "exclude-key-prefix"@[8] != "exclude-file"@[8]); }
    assert("exclude-key-prefix"@ != "override-region"@) by { assert("exclude-key-prefix"@.len() != "override-region"@.len() || "exclude-key-prefix"@[0] != "override-region"@[0]); }
    assert("exclude-key-prefix"@ != "materialize-region"@) by { assert("exclude-key-prefix"@.len() != "materialize-region"@.len() || "exclude-key-prefix"@[0] != "materialize-region"@[0]); }
    let allowed = op_keys("exclude-key-prefix"@)->0;
    assert(op_keys("exclude-key-prefix"@) is Some);
    assert(r is ExcludeKeyPrefix);
    assert(rule_op(r) == "exclude-key-prefix"@);
    assert forall|k: Seq<char>| has_key(rule_fs(r), k) implies allowed.contains(k) && rule_keys().contains(k) by {
        if k == "op"@ {
            assert(allowed[0] == k);
            assert(rule_keys()[0] == k);
        } else if k == "prefix"@ {
            assert(allowed[1] == k);
            assert(rule_keys()[12] == k);
        } else {
            assert(allowed[2] == k);
            assert(rule_keys()[14] == k);
        }
    }
    lemma_unknown_none(rule_fs(r), allowed);
    lemma_unknown_none(rule_fs(r), rule_keys());
    assert(table_get(rule_fs(r), "op"@) == table_get(t, "op"@));
    assert(table_get(rule_fs(r), "prefix"@) == table_get(t, "prefix"@));
    assert(table_get(rule_fs(r), "expected_matches"@) == table_get(t, "expected_matches"@));
}

#[verifier::spinoff_prover]
#[verifier::rlimit(80)]
proof fn lemma_rule_back_exclude_file_prefix(t: Seq<(Seq<char>, ScalarView)>, j: usize, i: usize)
    requires
        rule_of(t, j) is Ok,
        table_get(t, "op"@) == Some(ScalarView::Text("exclude-file-prefix"@)),
    ensures
        rule_of(rule_fs(rule_of(t, j)->Ok_0), i) == rule_of(t, j),
{
    broadcast use lemma_has_key_concat, lemma_has_key_one, lemma_has_key_empty, lemma_has_key_opt;
    broadcast use lemma_get_concat, lemma_get_one, lemma_get_opt, lemma_get_empty;

    reveal_strlit("op");
    reveal_strlit("prefix");
    reveal_strlit("expected_matches");
    reveal_strlit("override-hash");
    reveal_strlit("exclude-key");
    reveal_strlit("exclude-key-prefix");
    reveal_strlit("exclude-file-prefix");
    reveal_strlit("exclude-file");
    reveal_strlit("override-region");
    reveal_strlit("materialize-region");
    let r = rule_of(t, j)->Ok_0;
    assert("exclude-file-prefix"@ != "override-hash"@) by { assert("exclude-file-prefix"@.len() != "override-hash"@.len() || "exclude-file-prefix"@[0] != "override-hash"@[0]); }
    assert("exclude-file-prefix"@ != "exclude-key"@) by { assert("exclude-file-prefix"@.len() != "exclude-key"@.len() || "exclude-file-prefix"@[8] != "exclude-key"@[8]); }
    assert("exclude-file-prefix"@ != "exclude-key-prefix"@) by { assert("exclude-file-prefix"@.len() != "exclude-key-prefix"@.len() || "exclude-file-prefix"@[8] != "exclude-key-prefix"@[8]); }
    assert("exclude-file-prefix"@ != "exclude-file"@) by { assert("exclude-file-prefix"@.len() != "exclude-file"@.len() || "exclude-file-prefix"@[0] != "exclude-file"@[0]); }
    assert("exclude-file-prefix"@ != "override-region"@) by { assert("exclude-file-prefix"@.len() != "override-region"@.len() || "exclude-file-prefix"@[0] != "override-region"@[0]); }
    assert("exclude-file-prefix"@ != "materialize-region"@) by { assert("exclude-file-prefix"@.len() != "materialize-region"@.len() || "exclude-file-prefix"@[0] != "materialize-region"@[0]); }
    let allowed = op_keys("exclude-file-prefix"@)->0;
    assert(op_keys("exclude-file-prefix"@) is Some);
    assert(r is ExcludeFilePrefix);
    assert(rule_op(r) == "exclude-file-prefix"@);
    assert forall|k: Seq<char>| has_key(rule_fs(r), k) implies allowed.contains(k) && rule_keys().contains(k) by {
        if k == "op"@ {
            assert(allowed[0] == k);
            assert(rule_keys()[0] == k);
        } else if k == "prefix"@ {
            assert(allowed[1] == k);
            assert(rule_keys()[12] == k);
        } else {
            assert(allowed[2] == k);
            assert(rule_keys()[14] == k);
        }
    }
    lemma_unknown_none(rule_fs(r), allowed);
    lemma_unknown_none(rule_fs(r), rule_keys());
    assert(table_get(rule_fs(r), "op"@) == table_get(t, "op"@));
    assert(table_get(rule_fs(r), "prefix"@) == table_get(t, "prefix"@));
    assert(table_get(rule_fs(r), "expected_matches"@) == table_get(t, "expected_matches"@));
}

#[verifier::spinoff_prover]
#[verifier::rlimit(80)]
proof fn lemma_rule_back_exclude_file(t: Seq<(Seq<char>, ScalarView)>, j: usize, i: usize)
    requires
        rule_of(t, j) is Ok,
        table_get(t, "op"@) == Some(ScalarView::Text("exclude-file"@)),
    ensures
        rule_of(rule_fs(rule_of(t, j)->Ok_0), i) == rule_of(t, j),
{
    broadcast use lemma_has_key_concat, lemma_has_key_one, lemma_has_key_empty, lemma_has_key_opt;
    broadcast use lemma_get_concat, lemma_get_one, lemma_get_opt, lemma_get_empty;

    reveal_strlit("op");
    reveal_strlit("file");
    reveal_strlit("expected_matches");
    reveal_strlit("override-hash");
    reveal_strlit("exclude-key");
    reveal_strlit("exclude-key-prefix");
    reveal_strlit("exclude-file-prefix");
    reveal_strlit("exclude-file");
    reveal_strlit("override-region");
    reveal_strlit("materialize-region");
    let r = rule_of(t, j)->Ok_0;
    assert("exclude-file"@ != "override-hash"@) by { assert("exclude-file"@.len() != "override-hash"@.len() || "exclude-file"@[0] != "override-hash"@[0]); }
    assert("exclude-file"@ != "exclude-key"@) by { assert("exclude-file"@.len() != "exclude-key"@.len() || "exclude-file"@[8] != "exclude-key"@[8]); }
    assert("exclude-file"@ != "exclude-key-prefix"@) by { assert("exclude-file"@.len() != "exclude-key-prefix"@.len() || "exclude-file"@[8] != "exclude-key-prefix"@[8]); }
    assert("exclude-file"@ != "exclude-file-prefix"@) by { assert("exclude-file"@.len() != "exclude-file-prefix"@.len() || "exclude-file"@[0] != "exclude-file-prefix"@[0]); }
    assert("exclude-file"@ != "override-region"@) by { assert("exclude-file"@.len() != "override-region"@.len() || "exclude-file"@[0] != "override-region"@[0]); }
    assert("exclude-file"@ != "materialize-region"@) by { assert("exclude-file"@.len() != "materialize-region"@.len() || "exclude-file"@[0] != "materialize-region"@[0]); }
    let allowed = op_keys("exclude-file"@)->0;
    assert(op_keys("exclude-file"@) is Some);
    assert(r is ExcludeFile);
    assert(rule_op(r) == "exclude-file"@);
    assert forall|k: Seq<char>| has_key(rule_fs(r), k) implies allowed.contains(k) && rule_keys().contains(k) by {
        if k == "op"@ {
            assert(allowed[0] == k);
            assert(rule_keys()[0] == k);
        } else if k == "file"@ {
            assert(allowed[1] == k);
            assert(rule_keys()[13] == k);
        } else {
            assert(allowed[2] == k);
            assert(rule_keys()[14] == k);
        }
    }
    lemma_unknown_none(rule_fs(r), allowed);
    lemma_unknown_none(rule_fs(r), rule_keys());
    assert(table_get(rule_fs(r), "op"@) == table_get(t, "op"@));
    assert(table_get(rule_fs(r), "file"@) == table_get(t, "file"@));
    assert(table_get(rule_fs(r), "expected_matches"@) == table_get(t, "expected_matches"@));
}

#[verifier::spinoff_prover]
#[verifier::rlimit(80)]
proof fn lemma_rule_back_override_region(t: Seq<(Seq<char>, ScalarView)>, j: usize, i: usize)
    requires
        rule_of(t, j) is Ok,
        table_get(t, "op"@) == Some(ScalarView::Text("override-region"@)),
    ensures
        rule_of(rule_fs(rule_of(t, j)->Ok_0), i) == rule_of(t, j),
{
    broadcast use lemma_has_key_concat, lemma_has_key_one, lemma_has_key_empty, lemma_has_key_opt;
    broadcast use lemma_get_concat, lemma_get_one, lemma_get_opt, lemma_get_empty;

    reveal_strlit("op");
    reveal_strlit("key");
    reveal_strlit("from_hash");
    reveal_strlit("to_hash");
    reveal_strlit("from_summary");
    reveal_strlit("to_summary");
    reveal_strlit("expect_file");
    reveal_strlit("to_file");
    reveal_strlit("expect_domain");
    reveal_strlit("expect_layer");
    reveal_strlit("override-hash");
    reveal_strlit("exclude-key");
    reveal_strlit("exclude-key-prefix");
    reveal_strlit("exclude-file-prefix");
    reveal_strlit("exclude-file");
    reveal_strlit("override-region");
    reveal_strlit("materialize-region");
    let r = rule_of(t, j)->Ok_0;
    assert("override-region"@ != "override-hash"@) by { assert("override-region"@.len() != "override-hash"@.len() || "override-region"@[9] != "override-hash"@[9]); }
    assert("override-region"@ != "exclude-key"@) by { assert("override-region"@.len() != "exclude-key"@.len() || "override-region"@[0] != "exclude-key"@[0]); }
    assert("override-region"@ != "exclude-key-prefix"@) by { assert("override-region"@.len() != "exclude-key-prefix"@.len() || "override-region"@[0] != "exclude-key-prefix"@[0]); }
    assert("override-region"@ != "exclude-file-prefix"@) by { assert("override-region"@.len() != "exclude-file-prefix"@.len() || "override-region"@[0] != "exclude-file-prefix"@[0]); }
    assert("override-region"@ != "exclude-file"@) by { assert("override-region"@.len() != "exclude-file"@.len() || "override-region"@[0] != "exclude-file"@[0]); }
    assert("override-region"@ != "materialize-region"@) by { assert("override-region"@.len() != "materialize-region"@.len() || "override-region"@[0] != "materialize-region"@[0]); }
    let allowed = op_keys("override-region"@)->0;
    assert(op_keys("override-region"@) is Some);
    assert(r is OverrideRegion);
    assert(rule_op(r) == "override-region"@);
    assert forall|k: Seq<char>| has_key(rule_fs(r), k) implies allowed.contains(k) && rule_keys().contains(k) by {
        if k == "op"@ {
            assert(allowed[0] == k);
            assert(rule_keys()[0] == k);
        } else if k == "key"@ {
            assert(allowed[1] == k);
            assert(rule_keys()[1] == k);
        } else if k == "from_hash"@ {
            assert(allowed[2] == k);
            assert(rule_keys()[4] == k);
        } else if k == "to_hash"@ {
            assert(allowed[3] == k);
            assert(rule_keys()[5] == k);
        } else if k == "from_summary"@ {
            assert(allowed[4] == k);
            assert(rule_keys()[6] == k);
        } else if k == "to_summary"@ {
            assert(allowed[5] == k);
            assert(rule_keys()[7] == k);
        } else if k == "expect_file"@ {
            assert(allowed[6] == k);
            assert(rule_keys()[8] == k);
        } else if k == "to_file"@ {
            assert(allowed[7] == k);
            assert(rule_keys()[9] == k);
        } else if k == "expect_domain"@ {
            assert(allowed[8] == k);
            assert(rule_keys()[10] == k);
        } else {
            assert(allowed[9] == k);
            assert(rule_keys()[11] == k);
        }
    }
    lemma_unknown_none(rule_fs(r), allowed);
    lemma_unknown_none(rule_fs(r), rule_keys());
    assert(table_get(rule_fs(r), "op"@) == table_get(t, "op"@));
    assert(table_get(rule_fs(r), "key"@) == table_get(t, "key"@));
    assert(table_get(rule_fs(r), "from_hash"@) == table_get(t, "from_hash"@));
    assert(table_get(rule_fs(r), "to_hash"@) == table_get(t, "to_hash"@));
    assert(table_get(rule_fs(r), "from_summary"@) == table_get(t, "from_summary"@));
    assert(table_get(rule_fs(r), "to_summary"@) == table_get(t, "to_summary"@));
    assert(table_get(rule_fs(r), "expect_file"@) == table_get(t, "expect_file"@));
    assert(table_get(rule_fs(r), "to_file"@) == table_get(t, "to_file"@));
    assert(table_get(rule_fs(r), "expect_domain"@) == table_get(t, "expect_domain"@));
    assert(table_get(rule_fs(r), "expect_layer"@) == table_get(t, "expect_layer"@));
}

#[verifier::spinoff_prover]
#[verifier::rlimit(80)]
proof fn lemma_rule_back_materialize(t: Seq<(Seq<char>, ScalarView)>, j: usize, i: usize)
    requires
        rule_of(t, j) is Ok,
        table_get(t, "op"@) == Some(ScalarView::Text("materialize-region"@)),
    ensures
        rule_of(rule_fs(rule_of(t, j)->Ok_0), i) == rule_of(t, j),
{
    broadcast use lemma_has_key_concat, lemma_has_key_one, lemma_has_key_empty, lemma_has_key_opt;
    broadcast use lemma_get_concat, lemma_get_one, lemma_get_opt, lemma_get_empty;

    reveal_strlit("op");
    reveal_strlit("key");
    reveal_strlit("kind");
    reveal_strlit("domain");
    reveal_strlit("layer");
    reveal_strlit("file");
    reveal_strlit("summary");
    reveal_strlit("hash");
    reveal_strlit("status");
    reveal_strlit("override-hash");
    reveal_strlit("exclude-key");
    reveal_strlit("exclude-key-prefix");
    reveal_strlit("exclude-file-prefix");
    reveal_strlit("exclude-file");
    reveal_strlit("override-region");
    reveal_strlit("materialize-region");
    let r = rule_of(t, j)->Ok_0;
    assert("materialize-region"@ != "override-hash"@) by { assert("materialize-region"@.len() != "override-hash"@.len() || "materialize-region"@[0] != "override-hash"@[0]); }
    assert("materialize-region"@ != "exclude-key"@) by { assert("materialize-region"@.len() != "exclude-key"@.len() || "materialize-region"@[0] != "exclude-key"@[0]); }
    assert("materialize-region"@ != "exclude-key-prefix"@) by { assert("materialize-region"@.len() != "exclude-key-prefix"@.len() || "materialize-region"@[0] != "exclude-key-prefix"@[0]); }
    assert("materialize-region"@ != "exclude-file-prefix"@) by { assert("materialize-region"@.len() != "exclude-file-prefix"@.len() || "materialize-region"@[0] != "exclude-file-prefix"@[0]); }
    assert("materialize-region"@ != "exclude-file"@) by { assert("materialize-region"@.len() != "exclude-file"@.len() || "materialize-region"@[0] != "exclude-file"@[0]); }
    assert("materialize-region"@ != "override-region"@) by { assert("materialize-region"@.len() != "override-region"@.len() || "materialize-region"@[0] != "override-region"@[0]); }
    let allowed = op_keys("materialize-region"@)->0;
    assert(op_keys("materialize-region"@) is Some);
    assert(r is MaterializeRegion);
    assert(rule_op(r) == "materialize-region"@);
    assert forall|k: Seq<char>| has_key(rule_fs(r), k) implies allowed.contains(k) && rule_keys().contains(k) by {
        if k == "op"@ {
            assert(allowed[0] == k);
            assert(rule_keys()[0] == k);
        } else if k == "key"@ {
            assert(allowed[1] == k);
            assert(rule_keys()[1] == k);
        } else if k == "kind"@ {
            assert(allowed[2] == k);
            assert(rule_keys()[15] == k);
        } else if k == "domain"@ {
            assert(allowed[3] == k);
            assert(rule_keys()[16] == k);
        } else if k == "layer"@ {
            assert(allowed[4] == k);
            assert(rule_keys()[17] == k);
        } else if k == "file"@ {
            assert(allowed[5] == k);
            assert(rule_keys()[13] == k);
        } else if k == "summary"@ {
            assert(allowed[6] == k);
            assert(rule_keys()[18] == k);
        } else if k == "hash"@ {
            assert(allowed[7] == k);
            assert(rule_keys()[19] == k);
        } else {
            assert(allowed[8] == k);
            assert(rule_keys()[20] == k);
        }
    }
    lemma_unknown_none(rule_fs(r), allowed);
    lemma_unknown_none(rule_fs(r), rule_keys());
    assert(table_get(rule_fs(r), "op"@) == table_get(t, "op"@));
    assert(table_get(rule_fs(r), "key"@) == table_get(t, "key"@));
    assert(table_get(rule_fs(r), "kind"@) == table_get(t, "kind"@));
    assert(table_get(rule_fs(r), "domain"@) == table_get(t, "domain"@));
    assert(table_get(rule_fs(r), "layer"@) == table_get(t, "layer"@));
    assert(table_get(rule_fs(r), "file"@) == table_get(t, "file"@));
    assert(table_get(rule_fs(r), "summary"@) == table_get(t, "summary"@));
    assert(table_get(rule_fs(r), "hash"@) == table_get(t, "hash"@));
    assert(table_get(rule_fs(r), "status"@) == table_get(t, "status"@));
}

/// A rule read from a table reads back from its canonical table, whatever
/// its position.
proof fn lemma_rule_back(t: Seq<(Seq<char>, ScalarView)>, j: usize, i: usize)
    requires
        rule_of(t, j) is Ok,
    ensures
        rule_of(rule_fs(rule_of(t, j)->Ok_0), i) == rule_of(t, j),
{
    reveal_strlit("override-hash");
    reveal_strlit("exclude-key");
    reveal_strlit("exclude-key-prefix");
    reveal_strlit("exclude-file-prefix");
    reveal_strlit("exclude-file");
    reveal_strlit("override-region");
    reveal_strlit("materialize-region");
    let op = table_get(t, "op"@)->0->Text_0;
    assert(table_get(t, "op"@) == Some(ScalarView::Text(op)));
    assert(op_keys(op) is Some);
    if op == "override-hash"@ {
        lemma_rule_back_override_hash(t, j, i);
    } else if op == "exclude-key"@ {
        lemma_rule_back_exclude_key(t, j, i);
    } else if op == "exclude-key-prefix"@ {
        lemma_rule_back_exclude_key_prefix(t, j, i);
    } else if op == "exclude-file-prefix"@ {
        lemma_rule_back_exclude_file_prefix(t, j, i);
    } else if op == "exclude-file"@ {
        lemma_rule_back_exclude_file(t, j, i);
    } else if op == "override-region"@ {
        lemma_rule_back_override_region(t, j, i);
    } else {
        lemma_rule_back_materialize(t, j, i);
    }
}


// ---------------------------------------------------------------------------
// The canonical reconstruction table.
// ---------------------------------------------------------------------------

proof fn lemma_recipes_ids(rs: Seq<Seq<char>>, pos: int)
    requires
        0 <= pos,
        recipes_checked(rs, pos) is Ok,
    ensures
        forall|k: int| pos <= k < rs.len() ==> id_safe(#[trigger] rs[k]),
    decreases rs.len() - pos,
{
    if pos < rs.len() {
        lemma_recipes_ids(rs, pos + 1);
    }
}

proof fn lemma_recon_known(v: SnapshotView)
    ensures
        unknown_key(recon_fs(v), reconstruction_keys()) is None,
{
    broadcast use lemma_has_key_concat, lemma_has_key_one, lemma_has_key_empty, lemma_has_key_opt;

    assert forall|k: Seq<char>| has_key(recon_fs(v), k) implies reconstruction_keys().contains(k) by {
        if k == "expected_overrides"@ {
            assert(reconstruction_keys()[0] == k);
        } else if k == "expected_exclusions"@ {
            assert(reconstruction_keys()[1] == k);
        } else if k == "expected_materializations"@ {
            assert(reconstruction_keys()[2] == k);
        } else if k == "base_snapshot"@ {
            assert(reconstruction_keys()[3] == k);
        } else {
            assert(reconstruction_keys()[4] == k);
        }
    }
    lemma_unknown_none(recon_fs(v), reconstruction_keys());
}

pub open spec fn em_res(t: Seq<(Seq<char>, ScalarView)>, schema: u64) -> Result<u64, FailureView> {
    match table_get(t, "expected_materializations"@) {
        None => Ok(0),
        Some(_) => if schema < 4 {
            Err(super::parser::capability("reconstruction.expected_materializations"@, schema, 4))
        } else {
            super::parser::req_integer(t, "expected_materializations"@, "reconstruction."@)
        },
    }
}

/// The reconstruction of the canonical table is the one it was rendered from.
#[verifier::spinoff_prover]
#[verifier::rlimit(60)]
proof fn lemma_recon_back(v: SnapshotView, x: Option<Seq<(Seq<char>, ScalarView)>>, schema: u64, id: Seq<char>)
    requires
        recon_of(x, schema, id) is Ok,
        (recon_of(x, schema, id)->Ok_0).expected_overrides == v.expected_overrides,
        (recon_of(x, schema, id)->Ok_0).expected_exclusions == v.expected_exclusions,
        (recon_of(x, schema, id)->Ok_0).expected_materializations == v.expected_materializations,
        (recon_of(x, schema, id)->Ok_0).base_snapshot == v.base_snapshot,
        (recon_of(x, schema, id)->Ok_0).recipes == v.recipes,
    ensures
        recon_of(Some(recon_fs(v)), schema, id) == recon_of(x, schema, id),
{
    broadcast use lemma_get_concat, lemma_get_one, lemma_get_opt, lemma_get_empty;

    reveal_strlit("expected_overrides");
    reveal_strlit("expected_exclusions");
    reveal_strlit("expected_materializations");
    reveal_strlit("base_snapshot");
    reveal_strlit("recipes");
    let t = x->0;
    let r = recon_fs(v);
    let scope = "reconstruction."@;
    lemma_recon_known(v);
    assert(check_known(r, reconstruction_keys(), scope) == check_known(t, reconstruction_keys(), scope));
    assert(table_get(r, "expected_overrides"@) == table_get(t, "expected_overrides"@));
    assert(table_get(r, "expected_exclusions"@) == table_get(t, "expected_exclusions"@));
    assert(table_get(r, "base_snapshot"@) == table_get(t, "base_snapshot"@));
    assert(em_res(t, schema) == Ok::<u64, FailureView>(v.expected_materializations));
    assert(em_res(r, schema) == em_res(t, schema));
    assert(super::parser::opt_list(t, "recipes"@, scope) == Ok::<Seq<Seq<char>>, FailureView>(v.recipes));
    if v.recipes.len() == 0 {
        assert(v.recipes =~= Seq::<Seq<char>>::empty());
        assert(table_get(r, "recipes"@) is None);
    } else {
        assert(table_get(r, "recipes"@) == Some(ScalarView::List(v.recipes)));
    }
    assert(super::parser::opt_list(r, "recipes"@, scope) == super::parser::opt_list(t, "recipes"@, scope));
}

// ---------------------------------------------------------------------------
// The rules in canonical order.
// ---------------------------------------------------------------------------

proof fn lemma_built_each(ts: Seq<Seq<(Seq<char>, ScalarView)>>, i: int)
    requires
        0 <= i <= ts.len(),
        rules_built(ts, i) is Ok,
    ensures
        (rules_built(ts, i)->Ok_0).len() == ts.len() - i,
        forall|k: int|
            0 <= k < ts.len() - i ==> rule_of(ts[i + k], (i + k) as usize) == Ok::<RuleView, FailureView>(
                #[trigger] (rules_built(ts, i)->Ok_0)[k],
            ),
    decreases ts.len() - i,
{
    if i < ts.len() {
        lemma_built_each(ts, i + 1);
        let rest = rules_built(ts, i + 1)->Ok_0;
        let all = rules_built(ts, i)->Ok_0;
        assert(all == seq![rule_of(ts[i], i as usize)->Ok_0] + rest);
        assert forall|k: int| 0 <= k < ts.len() - i implies rule_of(ts[i + k], (i + k) as usize) == Ok::<
            RuleView,
            FailureView,
        >(#[trigger] all[k]) by {
            if k > 0 {
                assert(all[k] == rest[k - 1]);
                assert(rule_of(ts[i + 1 + (k - 1)], (i + 1 + (k - 1)) as usize) == Ok::<RuleView, FailureView>(rest[k - 1]));
            }
        }
    }
}

proof fn lemma_built_back(rs: Seq<RuleView>, i: int)
    requires
        0 <= i <= rs.len(),
        forall|k: int| 0 <= k < rs.len() ==> rule_of(rule_fs(rs[k]), k as usize) == Ok::<RuleView, FailureView>(#[trigger] rs[k]),
    ensures
        rules_built(rule_tables(rs), i) == Ok::<Seq<RuleView>, FailureView>(rs.skip(i)),
    decreases rs.len() - i,
{
    if i == rs.len() {
        assert(rs.skip(i) =~= Seq::<RuleView>::empty());
    } else {
        lemma_built_back(rs, i + 1);
        assert(rule_tables(rs)[i] == rule_fs(rs[i]));
        assert(rule_of(rule_fs(rs[i]), i as usize) == Ok::<RuleView, FailureView>(rs[i]));
        assert(seq![rs[i]] + rs.skip(i + 1) =~= rs.skip(i));
    }
}

proof fn lemma_admitted_each(schema: u64, rs: Seq<RuleView>, a: SchemaAuthority)
    requires
        rules_admitted(schema, rs, a) is Ok,
    ensures
        forall|k: int| 0 <= k < rs.len() ==> rule_admitted(#[trigger] rs[k], schema, a),
    decreases rs.len(),
{
    if rs.len() > 0 {
        lemma_admitted_each(schema, rs.drop_first(), a);
        assert forall|k: int| 0 <= k < rs.len() implies rule_admitted(#[trigger] rs[k], schema, a) by {
            if k > 0 {
                assert(rs[k] == rs.drop_first()[k - 1]);
            }
        }
    }
}

pub open spec fn no_conflict(rs: Seq<RuleView>) -> bool {
    forall|p: int, q: int| 0 <= p < q < rs.len() ==> (#[trigger] pair_conflict(rs[p], rs[q])) is None
}

proof fn lemma_conflict_from(rs: Seq<RuleView>, p: int, q: int)
    requires
        0 <= p,
        p < q || p >= rs.len(),
    ensures
        conflict_from(rs, p, q) is None <==> (forall|i: int, j: int|
            p <= i < j < rs.len() && (i > p || j >= q) ==> (#[trigger] pair_conflict(rs[i], rs[j])) is None),
    decreases rs.len() - p, rs.len() - q,
{
    if p >= rs.len() {
    } else if q >= rs.len() {
        lemma_conflict_from(rs, p + 1, p + 2);
    } else {
        lemma_conflict_from(rs, p, q + 1);
    }
}

proof fn lemma_pair_sym(a: RuleView, b: RuleView)
    ensures
        pair_conflict(a, b) is None <==> pair_conflict(b, a) is None,
{
}

proof fn lemma_self_conflict(a: RuleView)
    ensures
        pair_conflict(a, a) is Some,
{
}

/// Rules in no conflict never share both operation and selector.
proof fn lemma_distinct_keys(rs: Seq<RuleView>)
    requires
        no_conflict(rs),
    ensures
        super::render::keys_distinct(rs),
{
    assert forall|i: int, j: int| 0 <= i < rs.len() && 0 <= j < rs.len() && i != j implies rule_after(rs[i], rs[j])
        || rule_after(rs[j], rs[i]) by {
        crate::text::lemma_seq_lt_total(rule_selector(rs[i]), rule_selector(rs[j]));
        if !rule_after(rs[i], rs[j]) && !rule_after(rs[j], rs[i]) {
            assert(rule_rank(rs[i]) == rule_rank(rs[j]));
            assert(rule_selector(rs[i]) == rule_selector(rs[j]));
            if i < j {
                assert(pair_conflict(rs[i], rs[j]) is None);
            } else {
                assert(pair_conflict(rs[j], rs[i]) is None);
            }
        }
    }
}

proof fn lemma_insert_counts(s: Seq<RuleView>, x: RuleView)
    ensures
        count_overrides(insert_rule(s, x)) == count_overrides(s) + (if rule_is_override(x) {
            1nat
        } else {
            0nat
        }),
        count_materializations(insert_rule(s, x)) == count_materializations(s) + (if x is MaterializeRegion {
            1nat
        } else {
            0nat
        }),
        insert_rule(s, x).len() == s.len() + 1,
    decreases s.len(),
{
    if s.len() > 0 && rule_after(s.last(), x) {
        lemma_insert_counts(s.drop_last(), x);
        let u = insert_rule(s.drop_last(), x);
        assert(insert_rule(s, x) == u.push(s.last()));
        assert(u.push(s.last()).drop_last() =~= u);
        assert(u.push(s.last()).last() == s.last());
        assert(s.drop_last().push(s.last()) =~= s);
    } else if s.len() == 0 {
        assert(insert_rule(s, x) == seq![x]);
        assert(seq![x].drop_last() =~= s);
        assert(seq![x].last() == x);
    } else {
        assert(insert_rule(s, x) == s.push(x));
        assert(s.push(x).drop_last() =~= s);
        assert(s.push(x).last() == x);
    }
}

proof fn lemma_sorted_counts(s: Seq<RuleView>)
    ensures
        count_overrides(sorted_rules(s)) == count_overrides(s),
        count_materializations(sorted_rules(s)) == count_materializations(s),
        sorted_rules(s).len() == s.len(),
    decreases s.len(),
{
    if s.len() > 0 {
        lemma_sorted_counts(s.drop_last());
        lemma_insert_counts(sorted_rules(s.drop_last()), s.last());
    }
}

/// What the canonical order of a parsed snapshot's rules keeps.
proof fn lemma_sorted_keeps(rs: Seq<RuleView>, schema: u64, rc: ReconView)
    requires
        conflict_from(rs, 0, 1) is None,
        rules_check(schema, rs, SchemaAuthority::Snapshot) is Ok,
        budgets_check(rc, rs) is Ok,
    ensures
        sorted_rules(sorted_rules(rs)) == sorted_rules(rs),
        conflict_from(sorted_rules(rs), 0, 1) is None,
        rules_check(schema, sorted_rules(rs), SchemaAuthority::Snapshot) is Ok,
        budgets_check(rc, sorted_rules(rs)) == budgets_check(rc, rs),
{
    broadcast use vstd::seq_lib::group_to_multiset_ensures;

    let t = sorted_rules(rs);
    lemma_conflict_from(rs, 0, 1);
    assert(no_conflict(rs));
    lemma_distinct_keys(rs);
    super::render::lemma_sorted_rules(rs);
    // Strictly sorted rules are in canonical order already.
    assert(super::render::keys_distinct(t)) by {
        assert forall|i: int, j: int| 0 <= i < t.len() && 0 <= j < t.len() && i != j implies rule_after(t[i], t[j])
            || rule_after(t[j], t[i]) by {
            if i < j {
                assert(rule_after(t[j], t[i]));
            } else {
                assert(rule_after(t[i], t[j]));
            }
        }
    }
    super::render::lemma_sorted_rules(t);
    super::render::lemma_sorted_unique(sorted_rules(t), t);
    // Every rule of the canonical order is one of the parsed rules.
    assert forall|p: int, q: int| 0 <= p < q < t.len() implies (#[trigger] pair_conflict(t[p], t[q])) is None by {
        assert(rule_after(t[q], t[p]));
        super::render::lemma_after_asym(t[p], t[p]);
        assert(t[p] != t[q]);
        assert(t.contains(t[p]));
        assert(t.to_multiset().count(t[p]) > 0);
        assert(rs.contains(t[p]));
        assert(t.contains(t[q]));
        assert(t.to_multiset().count(t[q]) > 0);
        assert(rs.contains(t[q]));
        let a = choose|a: int| 0 <= a < rs.len() && rs[a] == t[p];
        let b = choose|b: int| 0 <= b < rs.len() && rs[b] == t[q];
        lemma_pair_sym(t[p], t[q]);
        if a < b {
            assert(pair_conflict(rs[a], rs[b]) is None);
        } else {
            assert(pair_conflict(rs[b], rs[a]) is None);
        }
    }
    lemma_conflict_from(t, 0, 1);
    let sch = schema;
    super::parser::law_rules_check_first_refusal(sch, rs, SchemaAuthority::Snapshot);
    assert(super::authority_supports(SchemaAuthority::Snapshot, sch));
    assert(rules_admitted(sch, rs, SchemaAuthority::Snapshot) is Ok);
    lemma_admitted_each(sch, rs, SchemaAuthority::Snapshot);
    assert forall|k: int| 0 <= k < t.len() implies rule_admitted(#[trigger] t[k], sch, SchemaAuthority::Snapshot) by {
        assert(t.contains(t[k]));
        assert(t.to_multiset().count(t[k]) > 0);
        assert(rs.contains(t[k]));
        let a = choose|a: int| 0 <= a < rs.len() && rs[a] == t[k];
        assert(rule_admitted(rs[a], sch, SchemaAuthority::Snapshot));
    }
    super::parser::law_rules_check_first_refusal(sch, t, SchemaAuthority::Snapshot);
    lemma_sorted_counts(rs);
}


// ---------------------------------------------------------------------------
// The law.
// ---------------------------------------------------------------------------

proof fn lemma_step_rules(array: Seq<char>, d: DocView, cur: Section, raw: Seq<char>, n: int)
    requires
        line_step(array, d, cur, raw, n) is Ok,
    ensures
        (line_step(array, d, cur, raw, n)->Ok_0).0.rules.len() <= d.rules.len() + 1,
{
}

proof fn lemma_read_rules_bound(array: Seq<char>, ls: Seq<Seq<char>>, i: int, d: DocView, cur: Section)
    requires
        0 <= i <= ls.len(),
        read_lines(array, ls, i, d, cur) is Ok,
    ensures
        (read_lines(array, ls, i, d, cur)->Ok_0).rules.len() <= d.rules.len() + ls.len() - i,
    decreases ls.len() - i,
{
    if i < ls.len() {
        lemma_step_rules(array, d, cur, ls[i], i + 1);
        let (d2, c2) = line_step(array, d, cur, ls[i], i + 1)->Ok_0;
        lemma_read_rules_bound(array, ls, i + 1, d2, c2);
    }
}

/// Parsing a snapshot text and rendering the result gives the canonical
/// text of that snapshot: parsing the canonical text gives the same
/// snapshot back, and rendering it again gives the same text. The number of
/// lines of the text fits a `usize`.
#[verifier::spinoff_prover]
#[verifier::rlimit(60)]
pub proof fn law_snapshot_roundtrip(t: Seq<char>)
    requires
        crate::text::lines(t).len() <= usize::MAX,
    ensures
        parse_spec(t) is Ok ==> parse_spec(render_text(parse_spec(t)->Ok_0)) == parse_spec(t),
        parse_spec(t) is Ok ==> render_text(parse_spec(render_text(parse_spec(t)->Ok_0))->Ok_0) == render_text(
            parse_spec(t)->Ok_0,
        ),
{
    broadcast use vstd::seq_lib::group_to_multiset_ensures;

    if parse_spec(t) is Ok {
        let d0 = super::toml::raw_document(t)->Ok_0;
        assert(super::toml::raw_document(t) is Ok);
        let v = snapshot_of(d0)->Ok_0;
        assert(parse_spec(t) == Ok::<SnapshotView, FailureView>(v));
        let h = header_of(d0.root)->Ok_0;
        let m = measures_of(d0.measures)->Ok_0;
        let rc = recon_of(d0.reconstruction, h.schema, h.id)->Ok_0;
        let rs0 = rules_built(d0.rules, 0)->Ok_0;
        lemma_header_back(v, d0.root);
        lemma_measures_back(m, d0.measures);
        lemma_recon_back(v, d0.reconstruction, h.schema, h.id);
        lemma_recipes_ids(rc.recipes, 0);
        lemma_built_each(d0.rules, 0);
        lemma_sorted_keeps(rs0, h.schema, rc);
        lemma_conflict_from(rs0, 0, 1);
        lemma_distinct_keys(rs0);
        super::render::lemma_sorted_rules(rs0);
        let vr = v.rules;
        assert(vr == sorted_rules(rs0));
        assert forall|k: int| 0 <= k < vr.len() implies rule_of(rule_fs(vr[k]), k as usize) == Ok::<RuleView, FailureView>(
            #[trigger] vr[k],
        ) by {
            assert(vr.contains(vr[k]));
            assert(vr.to_multiset().count(vr[k]) > 0);
            assert(rs0.contains(vr[k]));
            let a = choose|a: int| 0 <= a < rs0.len() && rs0[a] == vr[k];
            assert(rule_of(d0.rules[0 + a], (0 + a) as usize) == Ok::<RuleView, FailureView>(rs0[a]));
            lemma_rule_back(d0.rules[a], a as usize, k as usize);
        }
        lemma_built_back(vr, 0);
        assert(vr.skip(0) =~= vr);
        // The number of rules fits a `usize`.
        let ls = crate::text::lines(t);
        lemma_read_rules_bound("rules"@, ls, 0, super::toml::empty_doc(), Section::Root);
        lemma_sorted_counts(rs0);
        lemma_sorted_counts(vr);
        assert(sorted_rules(vr).len() <= usize::MAX);
        lemma_snap_document(v);
        let d1 = snap_doc(v);
        assert(d1.rules == rule_tables(vr));
        assert(snapshot_of(d1) == Ok::<SnapshotView, FailureView>(v));
        assert(parse_spec(render_text(v)) == Ok::<SnapshotView, FailureView>(v));
    }
}


// ---------------------------------------------------------------------------
// The canonical order is stable.
// ---------------------------------------------------------------------------

/// No rule comes strictly after a later one.
pub open spec fn in_order(s: Seq<RuleView>) -> bool {
    forall|i: int, j: int| 0 <= i < j < s.len() ==> !rule_after(#[trigger] s[i], #[trigger] s[j])
}

proof fn lemma_after_split(a: RuleView, b: RuleView, c: RuleView)
    requires
        rule_after(a, c),
        !rule_after(a, b),
    ensures
        rule_after(b, c),
{
    crate::text::lemma_seq_lt_total(rule_selector(a), rule_selector(b));
    if rule_rank(a) == rule_rank(b) && rule_rank(b) == rule_rank(c) {
        if rule_selector(a) == rule_selector(b) {
        } else {
            crate::text::lemma_seq_lt_trans(rule_selector(c), rule_selector(a), rule_selector(b));
        }
    }
}

proof fn lemma_insert_in_order(t: Seq<RuleView>, x: RuleView)
    requires
        in_order(t),
    ensures
        in_order(insert_rule(t, x)),
        insert_rule(t, x).to_multiset() == t.to_multiset().insert(x),
    decreases t.len(),
{
    broadcast use vstd::seq_lib::group_to_multiset_ensures;

    if t.len() == 0 {
        assert(insert_rule(t, x) == seq![x]);
        assert(seq![x] =~= Seq::<RuleView>::empty().push(x));
    } else if rule_after(t.last(), x) {
        let d = t.drop_last();
        assert forall|i: int, j: int| 0 <= i < j < d.len() implies !rule_after(#[trigger] d[i], #[trigger] d[j]) by {
            assert(d[j] == t[j] && d[i] == t[i]);
        }
        lemma_insert_in_order(d, x);
        let u = insert_rule(d, x);
        assert(t =~= d.push(t.last()));
        let w = u.push(t.last());
        assert(insert_rule(t, x) == w);
        assert forall|i: int, j: int| 0 <= i < j < w.len() implies !rule_after(#[trigger] w[i], #[trigger] w[j]) by {
            if j == u.len() {
                let e = u[i];
                assert(w[i] == e && w[j] == t.last());
                assert(u.contains(e));
                assert(u.to_multiset().count(e) > 0);
                if e == x {
                    super::render::lemma_after_asym(t.last(), x);
                } else {
                    assert(d.to_multiset().count(e) > 0);
                    assert(d.contains(e));
                    let m = choose|m: int| 0 <= m < d.len() && d[m] == e;
                    assert(t[m] == e);
                    assert(!rule_after(t[m], t[t.len() - 1]));
                }
            } else {
                assert(w[j] == u[j] && w[i] == u[i]);
            }
        }
        assert(d.to_multiset().insert(x).insert(t.last()) =~= d.to_multiset().insert(t.last()).insert(x));
    } else {
        let w = t.push(x);
        assert(insert_rule(t, x) == w);
        assert forall|i: int, j: int| 0 <= i < j < w.len() implies !rule_after(#[trigger] w[i], #[trigger] w[j]) by {
            if j == t.len() {
                assert(w[j] == x && w[i] == t[i]);
                if i < t.len() - 1 && rule_after(t[i], x) {
                    assert(!rule_after(t[i], t[t.len() - 1]));
                    lemma_after_split(t[i], t[t.len() - 1], x);
                }
            } else {
                assert(w[j] == t[j] && w[i] == t[i]);
            }
        }
    }
}

/// The canonical order keeps every rule and leaves no rule after a later one.
proof fn lemma_sorted_in_order(s: Seq<RuleView>)
    ensures
        in_order(sorted_rules(s)),
        sorted_rules(s).to_multiset() == s.to_multiset(),
    decreases s.len(),
{
    broadcast use vstd::seq_lib::group_to_multiset_ensures;

    if s.len() > 0 {
        lemma_sorted_in_order(s.drop_last());
        lemma_insert_in_order(sorted_rules(s.drop_last()), s.last());
        assert(s =~= s.drop_last().push(s.last()));
    }
}

/// Rules already in order are their own canonical order.
proof fn lemma_in_order_fixed(s: Seq<RuleView>)
    requires
        in_order(s),
    ensures
        sorted_rules(s) == s,
    decreases s.len(),
{
    if s.len() > 0 {
        let d = s.drop_last();
        assert forall|i: int, j: int| 0 <= i < j < d.len() implies !rule_after(#[trigger] d[i], #[trigger] d[j]) by {
            assert(d[j] == s[j] && d[i] == s[i]);
        }
        lemma_in_order_fixed(d);
        if d.len() == 0 {
            assert(insert_rule(d, s.last()) == seq![s.last()]);
            assert(s =~= seq![s.last()]);
        } else {
            assert(!rule_after(s[d.len() - 1], s[s.len() - 1]));
            assert(insert_rule(d, s.last()) == d.push(s.last()));
            assert(s =~= d.push(s.last()));
        }
    }
}

/// Sorting twice is sorting once.
pub proof fn lemma_sorted_idempotent(s: Seq<RuleView>)
    ensures
        sorted_rules(sorted_rules(s)) == sorted_rules(s),
{
    lemma_sorted_in_order(s);
    lemma_in_order_fixed(sorted_rules(s));
}

// ---------------------------------------------------------------------------
// The canonical recipe document.
// ---------------------------------------------------------------------------

pub open spec fn recipe_root_fs(r: RecipeView) -> Seq<(Seq<char>, ScalarView)> {
    one("schema"@, ScalarView::Integer(r.schema)) + one("id"@, ScalarView::Text(r.id))
}

pub open spec fn recipe_recon_fs(r: RecipeView) -> Seq<(Seq<char>, ScalarView)> {
    list_f("steps"@, r.steps) + one("expected_overrides"@, ScalarView::Integer(r.expected_overrides)) + one(
        "expected_exclusions"@,
        ScalarView::Integer(r.expected_exclusions),
    )
}

pub open spec fn recipe_lines(r: RecipeView) -> Seq<Seq<char>> {
    field_lines(recipe_root_fs(r)) + hdr("[reconstruction]"@) + field_lines(recipe_recon_fs(r)) + rules_lines(
        sorted_rules(r.rules),
    )
}

pub open spec fn recipe_doc(r: RecipeView) -> DocView {
    DocView {
        root: recipe_root_fs(r),
        reconstruction: Some(recipe_recon_fs(r)),
        measures: None,
        rules: rule_tables(sorted_rules(r.rules)),
    }
}

pub open spec fn steps_part(r: RecipeView) -> Seq<char> {
    if r.steps.len() > 0 {
        "steps = ["@ + recipe_list(r.steps) + "]\n"@
    } else {
        Seq::empty()
    }
}

proof fn lemma_recipe_root_text(r: RecipeView)
    ensures
        jf(recipe_root_fs(r)) == int_line("schema"@, r.schema as nat) + text_line("id"@, r.id),
{
    broadcast use lemma_jf_concat;

    lemma_jf_int("schema"@, r.schema);
    lemma_jf_text("id"@, r.id);
}

proof fn lemma_recipe_recon_text(r: RecipeView)
    ensures
        jf(recipe_recon_fs(r)) == steps_part(r) + int_line("expected_overrides"@, r.expected_overrides as nat)
            + int_line("expected_exclusions"@, r.expected_exclusions as nat),
{
    broadcast use lemma_jf_concat;

    if r.steps.len() > 0 {
        reveal_strlit("steps = [");
        reveal_strlit("steps");
        reveal_strlit(" = ");
        reveal_strlit("[");
        reveal_strlit("]");
        reveal_strlit("]\n");
        reveal_strlit("\n");
        lemma_jf_one("steps"@, ScalarView::List(r.steps));
        assert("steps = ["@ + recipe_list(r.steps) + "]\n"@ =~= "steps"@ + " = "@ + ("["@ + recipe_list(r.steps)
            + "]"@) + "\n"@);
    } else {
        lemma_jf_empty();
    }
    lemma_jf_int("expected_overrides"@, r.expected_overrides);
    lemma_jf_int("expected_exclusions"@, r.expected_exclusions);
}

#[verifier::spinoff_prover]
#[verifier::rlimit(60)]
proof fn lemma_recipe_text_lines(r: RecipeView)
    ensures
        recipe_text(r) == joined(recipe_lines(r)),
{
    let a = field_lines(recipe_root_fs(r));
    let h1 = hdr("[reconstruction]"@);
    let b = field_lines(recipe_recon_fs(r));
    let rl = rules_lines(sorted_rules(r.rules));
    lemma_joined_concat(a + h1 + b, rl);
    lemma_joined_concat(a + h1, b);
    lemma_joined_concat(a, h1);
    lemma_recipe_root_text(r);
    lemma_recipe_recon_text(r);
    lemma_rules_text(sorted_rules(r.rules));
    lemma_hdr_text("[reconstruction]"@);
    reveal_strlit("\n[reconstruction]\n");
    reveal_strlit("[reconstruction]");
    reveal_strlit("\n");
    assert("\n"@ + "[reconstruction]"@ + "\n"@ =~= "\n[reconstruction]\n"@);
    assert(recipe_text(r) =~= joined(recipe_lines(r)));
}

proof fn lemma_recipe_fields_ok(r: RecipeView)
    requires
        all_ids(r.steps),
    ensures
        fields_ok(Seq::empty(), recipe_root_fs(r)),
        fields_ok(Seq::empty(), recipe_recon_fs(r)),
{
    broadcast use lemma_has_key_concat, lemma_has_key_one, lemma_has_key_empty;

    lemma_keys_ok();
    reveal_strlit("schema");
    reveal_strlit("id");
    reveal_strlit("steps");
    reveal_strlit("expected_overrides");
    reveal_strlit("expected_exclusions");
    let e = Seq::<(Seq<char>, ScalarView)>::empty();
    let a = one("schema"@, ScalarView::Integer(r.schema));
    lemma_fields_ok_one(e, "schema"@, ScalarView::Integer(r.schema));
    assert(e + a =~= a);
    lemma_fields_ok_one(a, "id"@, ScalarView::Text(r.id));
    lemma_fields_ok_concat(e, a, one("id"@, ScalarView::Text(r.id)));
    let b = list_f("steps"@, r.steps);
    if r.steps.len() > 0 {
        lemma_fields_ok_one(e, "steps"@, ScalarView::List(r.steps));
    } else {
        assert(fields_ok(e, b));
    }
    assert(e + b =~= b);
    assert(!has_key(b, "expected_overrides"@));
    assert(!has_key(b, "expected_exclusions"@));
    let c = one("expected_overrides"@, ScalarView::Integer(r.expected_overrides));
    lemma_fields_ok_one(b, "expected_overrides"@, ScalarView::Integer(r.expected_overrides));
    lemma_fields_ok_concat(e, b, c);
    assert(e + (b + c) =~= b + c);
    lemma_fields_ok_one(b + c, "expected_exclusions"@, ScalarView::Integer(r.expected_exclusions));
    lemma_fields_ok_concat(e, b + c, one("expected_exclusions"@, ScalarView::Integer(r.expected_exclusions)));
}

#[verifier::spinoff_prover]
#[verifier::rlimit(40)]
proof fn lemma_recipe_run(r: RecipeView)
    requires
        all_ids(r.steps),
        sorted_rules(r.rules).len() <= usize::MAX,
    ensures
        run("rules"@, recipe_lines(r), super::toml::empty_doc(), Section::Root) == Some((
            recipe_doc(r),
            (run("rules"@, recipe_lines(r), super::toml::empty_doc(), Section::Root)->0).1,
        )),
{
    let a = field_lines(recipe_root_fs(r));
    let h1 = hdr("[reconstruction]"@);
    let b = field_lines(recipe_recon_fs(r));
    let rs = sorted_rules(r.rules);
    let rl = rules_lines(rs);
    lemma_recipe_fields_ok(r);
    let e = Seq::<(Seq<char>, ScalarView)>::empty();
    let d0 = super::toml::empty_doc();
    lemma_run_fields("rules"@, recipe_root_fs(r), d0, Section::Root);
    assert(e + recipe_root_fs(r) =~= recipe_root_fs(r));
    let d1 = DocView { root: recipe_root_fs(r), ..d0 };
    lemma_recon_step("rules"@, d1, Section::Root, 0);
    let d2 = DocView { reconstruction: Some(e), ..d1 };
    lemma_run_hdr("[reconstruction]"@, d1, Section::Root, d2, Section::Reconstruction);
    lemma_run_fields("rules"@, recipe_recon_fs(r), d2, Section::Reconstruction);
    assert(e + recipe_recon_fs(r) =~= recipe_recon_fs(r));
    let d3 = DocView { reconstruction: Some(recipe_recon_fs(r)), ..d2 };
    lemma_run_rules(rs, d3, Section::Reconstruction);
    lemma_run_concat("rules"@, a, h1, d0, Section::Root);
    lemma_run_concat("rules"@, a + h1, b, d0, Section::Root);
    lemma_run_concat("rules"@, a + h1 + b, rl, d0, Section::Root);
    assert(d3.rules + rule_tables(rs) =~= rule_tables(rs));
}

proof fn lemma_recipe_plain(r: RecipeView)
    requires
        all_ids(r.steps),
    ensures
        all_plain(recipe_lines(r)),
{
    reveal_strlit("[reconstruction]");
    let a = field_lines(recipe_root_fs(r));
    let h1 = hdr("[reconstruction]"@);
    let b = field_lines(recipe_recon_fs(r));
    let rl = rules_lines(sorted_rules(r.rules));
    lemma_recipe_fields_ok(r);
    lemma_fields_plain(recipe_root_fs(r));
    lemma_fields_plain(recipe_recon_fs(r));
    lemma_hdr_plain("[reconstruction]"@);
    lemma_rules_lines_plain(sorted_rules(r.rules));
    lemma_plain_concat(a, h1);
    lemma_plain_concat(a + h1, b);
    lemma_plain_concat(a + h1 + b, rl);
}

/// The canonical text of a recipe reads as its canonical document.
pub proof fn lemma_recipe_document(r: RecipeView)
    requires
        all_ids(r.steps),
        sorted_rules(r.rules).len() <= usize::MAX,
    ensures
        super::toml::raw_document(recipe_text(r)) == Ok::<DocView, (int, Seq<char>)>(recipe_doc(r)),
{
    lemma_recipe_plain(r);
    lemma_recipe_run(r);
    lemma_recipe_text_lines(r);
    lemma_raw_document_run("rules"@, recipe_lines(r));
}


// ---------------------------------------------------------------------------
// Recipes read back.
// ---------------------------------------------------------------------------

pub open spec fn recipe_rule_ok(r: RuleView, schema: u64) -> bool {
    !(r is MaterializeRegion) && super::rule_min_schema(r, SchemaAuthority::Recipe) <= schema
}

proof fn lemma_recipe_rules_each(ts: Seq<Seq<(Seq<char>, ScalarView)>>, schema: u64, i: int)
    requires
        0 <= i <= ts.len(),
        recipe_rules(ts, schema, i) is Ok,
    ensures
        (recipe_rules(ts, schema, i)->Ok_0).len() == ts.len() - i,
        forall|k: int|
            0 <= k < ts.len() - i ==> rule_of(ts[i + k], (i + k) as usize) == Ok::<RuleView, FailureView>(
                #[trigger] (recipe_rules(ts, schema, i)->Ok_0)[k],
            ) && recipe_rule_ok((recipe_rules(ts, schema, i)->Ok_0)[k], schema),
    decreases ts.len() - i,
{
    if i < ts.len() {
        lemma_recipe_rules_each(ts, schema, i + 1);
        let rest = recipe_rules(ts, schema, i + 1)->Ok_0;
        let all = recipe_rules(ts, schema, i)->Ok_0;
        assert(all == seq![rule_of(ts[i], i as usize)->Ok_0] + rest);
        assert forall|k: int| 0 <= k < ts.len() - i implies rule_of(ts[i + k], (i + k) as usize) == Ok::<
            RuleView,
            FailureView,
        >(#[trigger] all[k]) && recipe_rule_ok(all[k], schema) by {
            if k > 0 {
                assert(all[k] == rest[k - 1]);
                assert(rule_of(ts[i + 1 + (k - 1)], (i + 1 + (k - 1)) as usize) == Ok::<RuleView, FailureView>(rest[k - 1]));
            }
        }
    }
}

proof fn lemma_recipe_rules_back(rs: Seq<RuleView>, schema: u64, i: int)
    requires
        0 <= i <= rs.len(),
        forall|k: int|
            0 <= k < rs.len() ==> rule_of(rule_fs(rs[k]), k as usize) == Ok::<RuleView, FailureView>(#[trigger] rs[k])
                && recipe_rule_ok(rs[k], schema),
    ensures
        recipe_rules(rule_tables(rs), schema, i) == Ok::<Seq<RuleView>, FailureView>(rs.skip(i)),
    decreases rs.len() - i,
{
    if i == rs.len() {
        assert(rs.skip(i) =~= Seq::<RuleView>::empty());
    } else {
        lemma_recipe_rules_back(rs, schema, i + 1);
        assert(rule_tables(rs)[i] == rule_fs(rs[i]));
        assert(rule_of(rule_fs(rs[i]), i as usize) == Ok::<RuleView, FailureView>(rs[i]) && recipe_rule_ok(rs[i], schema));
        assert(seq![rs[i]] + rs.skip(i + 1) =~= rs.skip(i));
    }
}

proof fn lemma_steps_ids(ss: Seq<Seq<char>>, id: Seq<char>, pos: int)
    requires
        0 <= pos,
        steps_checked(ss, id, pos) is Ok,
    ensures
        forall|k: int| pos <= k < ss.len() ==> id_safe(#[trigger] ss[k]),
    decreases ss.len() - pos,
{
    if pos < ss.len() {
        lemma_steps_ids(ss, id, pos + 1);
    }
}

/// The canonical recipe document passes the same checks as the document it
/// was rendered from, with the same values.
#[verifier::spinoff_prover]
#[verifier::rlimit(80)]
proof fn lemma_recipe_doc_back(v: RecipeView, d0: DocView)
    requires
        recipe_of(d0) == Ok::<RecipeView, FailureView>(v),
        recipe_rules(rule_tables(sorted_rules(v.rules)), v.schema, 0) == Ok::<Seq<RuleView>, FailureView>(
            v.rules,
        ),
        recipe_budgets(v.expected_overrides, v.expected_exclusions, v.rules) is Ok,
        sorted_rules(v.rules) == v.rules,
    ensures
        recipe_of(recipe_doc(v)) == Ok::<RecipeView, FailureView>(v),
{
    broadcast use lemma_get_concat, lemma_get_one, lemma_get_empty;
    broadcast use lemma_has_key_concat, lemma_has_key_one, lemma_has_key_empty;

    reveal_strlit("schema");
    reveal_strlit("id");
    reveal_strlit("steps");
    reveal_strlit("expected_overrides");
    reveal_strlit("expected_exclusions");
    reveal_strlit("state");
    reveal_strlit("predecessor");
    reveal_strlit("justification");
    reveal_strlit("base_snapshot");
    reveal_strlit("recipes");
    let d = recipe_doc(v);
    let root = recipe_root_fs(v);
    let rec = recipe_recon_fs(v);
    let t = d0.reconstruction->0;
    let scope = "reconstruction."@;
    assert(forbidden_field(d0) is None);
    assert(table_get(root, "state"@) is None);
    assert(table_get(root, "predecessor"@) is None);
    assert(table_get(root, "justification"@) is None);
    assert(table_get(rec, "base_snapshot"@) is None);
    assert(table_get(rec, "recipes"@) is None);
    assert(forbidden_field(d) is None);
    assert forall|k: Seq<char>| has_key(root, k) implies recipe_root_keys().contains(k) by {
        if k == "schema"@ {
            assert(recipe_root_keys()[0] == k);
        } else {
            assert(recipe_root_keys()[1] == k);
        }
    }
    lemma_unknown_none(root, recipe_root_keys());
    assert forall|k: Seq<char>| has_key(rec, k) implies recipe_reconstruction_keys().contains(k) by {
        if k == "steps"@ {
            assert(recipe_reconstruction_keys()[0] == k);
        } else if k == "expected_overrides"@ {
            assert(recipe_reconstruction_keys()[1] == k);
        } else {
            assert(recipe_reconstruction_keys()[2] == k);
        }
    }
    lemma_unknown_none(rec, recipe_reconstruction_keys());
    assert(table_get(root, "schema"@) == table_get(d0.root, "schema"@));
    assert(table_get(root, "id"@) == table_get(d0.root, "id"@));
    assert(recipe_schema(root) == recipe_schema(d0.root));
    assert(table_get(rec, "expected_overrides"@) == table_get(t, "expected_overrides"@));
    assert(table_get(rec, "expected_exclusions"@) == table_get(t, "expected_exclusions"@));
    assert(super::parser::opt_list(t, "steps"@, scope) == Ok::<Seq<Seq<char>>, FailureView>(v.steps));
    if v.steps.len() == 0 {
        assert(v.steps =~= Seq::<Seq<char>>::empty());
        assert(table_get(rec, "steps"@) is None);
    } else {
        assert(table_get(rec, "steps"@) == Some(ScalarView::List(v.steps)));
    }
    assert(super::parser::opt_list(rec, "steps"@, scope) == super::parser::opt_list(t, "steps"@, scope));
    assert(d.rules == rule_tables(sorted_rules(v.rules)));
}

/// Parsing a recipe text and rendering the result gives the canonical text
/// of that recipe: parsing the canonical text gives the same recipe back,
/// and rendering it again gives the same text. The number of lines of the
/// text fits a `usize`.
#[verifier::spinoff_prover]
#[verifier::rlimit(60)]
pub proof fn law_recipe_roundtrip(t: Seq<char>)
    requires
        crate::text::lines(t).len() <= usize::MAX,
    ensures
        recipe_spec(t) is Ok ==> recipe_spec(recipe_text(recipe_spec(t)->Ok_0)) == recipe_spec(t),
        recipe_spec(t) is Ok ==> recipe_text(recipe_spec(recipe_text(recipe_spec(t)->Ok_0))->Ok_0) == recipe_text(
            recipe_spec(t)->Ok_0,
        ),
{
    broadcast use vstd::seq_lib::group_to_multiset_ensures;

    if recipe_spec(t) is Ok {
        let d0 = super::toml::raw_document(t)->Ok_0;
        assert(super::toml::raw_document(t) is Ok);
        let v = recipe_of(d0)->Ok_0;
        assert(recipe_spec(t) == Ok::<RecipeView, FailureView>(v));
        let schema = recipe_schema(d0.root)->Ok_0;
        let id = super::parser::req_text(d0.root, "id"@, ""@)->Ok_0;
        let steps = super::parser::opt_list(d0.reconstruction->0, "steps"@, "reconstruction."@)->Ok_0;
        let rs0 = recipe_rules(d0.rules, schema, 0)->Ok_0;
        assert(v.rules == sorted_rules(rs0));
        lemma_steps_ids(steps, id, 0);
        lemma_recipe_rules_each(d0.rules, schema, 0);
        lemma_sorted_in_order(rs0);
        lemma_sorted_idempotent(rs0);
        let vr = v.rules;
        assert forall|k: int| 0 <= k < vr.len() implies rule_of(rule_fs(vr[k]), k as usize) == Ok::<RuleView, FailureView>(
            #[trigger] vr[k],
        ) && recipe_rule_ok(vr[k], schema) by {
            assert(vr.contains(vr[k]));
            assert(vr.to_multiset().count(vr[k]) > 0);
            assert(rs0.contains(vr[k]));
            let a = choose|a: int| 0 <= a < rs0.len() && rs0[a] == vr[k];
            assert(rule_of(d0.rules[0 + a], (0 + a) as usize) == Ok::<RuleView, FailureView>(rs0[a]) && recipe_rule_ok(
                rs0[a],
                schema,
            ));
            lemma_rule_back(d0.rules[a], a as usize, k as usize);
        }
        lemma_recipe_rules_back(vr, schema, 0);
        assert(vr.skip(0) =~= vr);
        let ls = crate::text::lines(t);
        lemma_read_rules_bound("rules"@, ls, 0, super::toml::empty_doc(), Section::Root);
        lemma_sorted_counts(rs0);
        lemma_sorted_counts(vr);
        assert(sorted_rules(vr).len() <= usize::MAX);
        lemma_recipe_document(v);
        lemma_recipe_doc_back(v, d0);
        assert(recipe_spec(recipe_text(v)) == Ok::<RecipeView, FailureView>(v));
    }
}

} // verus!
