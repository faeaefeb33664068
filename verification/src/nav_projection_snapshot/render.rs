//! Canonical serialisation of snapshots: same model, same bytes, on any
//! machine, root, user or moment.
use super::parser::{insert_rule, rule_after, sort_rules, sorted_rules};
use super::{
    clone_rule, rule_op, rule_view, rules_view, snapshot_view, state_name, ProjectionSnapshot,
    Rule, RuleView, SnapshotView,
};
use crate::nav::{fnv_canonical, push_fnv_canonical};
use crate::text::{decimal, push_all, push_decimal, push_str_chars, string_from, string_rows};
use vstd::prelude::*;

verus! {

/// The escaped form of one character inside a quoted TOML text.
pub open spec fn escape_char(c: char) -> Seq<char> {
    if c == '"' {
        seq!['\\', '"']
    } else if c == '\\' {
        seq!['\\', '\\']
    } else if c == '\n' {
        seq!['\\', 'n']
    } else if c == '\r' {
        seq!['\\', 'r']
    } else if c == '\t' {
        seq!['\\', 't']
    } else {
        seq![c]
    }
}

/// The escaped characters of a text.
pub open spec fn escaped(s: Seq<char>) -> Seq<char>
    decreases s.len(),
{
    if s.len() == 0 {
        Seq::empty()
    } else {
        escaped(s.drop_last()) + escape_char(s.last())
    }
}

/// A text as a quoted TOML string.
pub open spec fn quoted(s: Seq<char>) -> Seq<char> {
    seq!['"'] + escaped(s) + seq!['"']
}

fn push_escaped(out: &mut Vec<char>, s: &str)
    ensures
        final(out)@ == old(out)@ + escaped(s@),
{
    let v = crate::text::chars_of(s);
    let mut i: usize = 0;
    assert(v@.take(0) =~= Seq::<char>::empty());
    assert(old(out)@ + escaped(Seq::empty()) =~= old(out)@);
    while i < v.len()
        invariant
            i <= v@.len(),
            v@ == s@,
            out@ == old(out)@ + escaped(v@.take(i as int)),
        decreases v.len() - i,
    {
        let c = v[i];
        assert(v@.take(i + 1).drop_last() =~= v@.take(i as int));
        if c == '"' {
            out.push('\\');
            out.push('"');
        } else if c == '\\' {
            out.push('\\');
            out.push('\\');
        } else if c == '\n' {
            out.push('\\');
            out.push('n');
        } else if c == '\r' {
            out.push('\\');
            out.push('r');
        } else if c == '\t' {
            out.push('\\');
            out.push('t');
        } else {
            out.push(c);
        }
        assert(out@ =~= old(out)@ + escaped(v@.take(i + 1)));
        i = i + 1;
    }
    assert(v@.take(i as int) =~= v@);
}

pub(crate) fn push_quoted(out: &mut Vec<char>, s: &str)
    ensures
        final(out)@ == old(out)@ + quoted(s@),
{
    out.push('"');
    push_escaped(out, s);
    out.push('"');
    assert(final(out)@ =~= old(out)@ + quoted(s@));
}

/// A text as a quoted TOML string.
pub fn toml_escape(value: &str) -> (s: String)
    ensures
        s@ == quoted(value@),
{
    let mut out: Vec<char> = Vec::new();
    push_quoted(&mut out, value);
    string_from(&out)
}

/// `name = "value"\n`.
pub open spec fn text_line(name: Seq<char>, v: Seq<char>) -> Seq<char> {
    name + " = "@ + quoted(v) + "\n"@
}

/// `name = value\n`, for an integer.
pub open spec fn int_line(name: Seq<char>, n: nat) -> Seq<char> {
    name + " = "@ + decimal(n) + "\n"@
}

/// The line of an optional text: nothing when absent.
pub open spec fn opt_line(name: Seq<char>, v: Option<Seq<char>>) -> Seq<char> {
    match v {
        Some(t) => text_line(name, t),
        None => Seq::empty(),
    }
}

/// Every line of a rule but its `[[rules]]` header.
pub open spec fn rule_body(r: RuleView) -> Seq<char> {
    text_line("op"@, rule_op(r)) + rule_fields_text(r)
}

/// The lines of a rule after its `op` line.
pub open spec fn rule_fields_text(r: RuleView) -> Seq<char> {
    match r {
        RuleView::OverrideHash { key, from, to, expect_file, expect_domain, expect_layer } => text_line(
            "key"@,
            key,
        ) + text_line("from"@, from) + text_line("to"@, to) + opt_line("expect_file"@, expect_file)
            + opt_line("expect_domain"@, expect_domain) + opt_line("expect_layer"@, expect_layer),
        RuleView::ExcludeKey { key, expected_matches } => text_line("key"@, key) + int_line(
            "expected_matches"@,
            expected_matches as nat,
        ),
        RuleView::ExcludeKeyPrefix { prefix, expected_matches } => text_line("prefix"@, prefix)
            + int_line("expected_matches"@, expected_matches as nat),
        RuleView::ExcludeFilePrefix { prefix, expected_matches } => text_line("prefix"@, prefix)
            + int_line("expected_matches"@, expected_matches as nat),
        RuleView::ExcludeFile { file, expected_matches } => text_line("file"@, file) + int_line(
            "expected_matches"@,
            expected_matches as nat,
        ),
        RuleView::OverrideRegion {
            key,
            from_hash,
            to_hash,
            from_summary,
            to_summary,
            expect_file,
            to_file,
            expect_domain,
            expect_layer,
        } => text_line("key"@, key) + opt_line("from_hash"@, from_hash) + opt_line("to_hash"@, to_hash)
            + opt_line("from_summary"@, from_summary) + opt_line("to_summary"@, to_summary) + opt_line(
            "expect_file"@,
            expect_file,
        ) + opt_line("to_file"@, to_file) + opt_line("expect_domain"@, expect_domain) + opt_line(
            "expect_layer"@,
            expect_layer,
        ),
        RuleView::MaterializeRegion { key, kind, domain, layer, file, summary, hash, status } => text_line(
            "key"@,
            key,
        ) + text_line("kind"@, kind) + opt_line("domain"@, domain) + opt_line("layer"@, layer)
            + text_line("file"@, file) + text_line("summary"@, summary) + text_line("hash"@, hash)
            + text_line("status"@, status),
    }
}

pub(crate) fn push_text_line(out: &mut Vec<char>, name: &str, v: &str)
    ensures
        final(out)@ == old(out)@ + text_line(name@, v@),
{
    push_str_chars(out, name);
    push_str_chars(out, " = ");
    push_quoted(out, v);
    push_str_chars(out, "\n");
    assert(final(out)@ =~= old(out)@ + text_line(name@, v@));
}

pub(crate) fn push_int_line(out: &mut Vec<char>, name: &str, n: u64)
    ensures
        final(out)@ == old(out)@ + int_line(name@, n as nat),
{
    push_str_chars(out, name);
    push_str_chars(out, " = ");
    push_decimal(out, n);
    push_str_chars(out, "\n");
    assert(final(out)@ =~= old(out)@ + int_line(name@, n as nat));
}

fn push_opt_line(out: &mut Vec<char>, name: &str, v: &Option<String>)
    ensures
        final(out)@ == old(out)@ + opt_line(name@, super::opt_view(*v)),
{
    match v {
        Some(t) => push_text_line(out, name, t.as_str()),
        None => {
            assert(old(out)@ + Seq::<char>::empty() =~= old(out)@);
        },
    }
}

fn push_fields(out: &mut Vec<char>, rule: &Rule)
    ensures
        final(out)@ == old(out)@ + rule_fields_text(rule_view(*rule)),
{
    let ghost o = out@;
    match rule {
        Rule::OverrideHash { key, from, to, expect_file, expect_domain, expect_layer } => {
            push_text_line(out, "key", key.as_str());
            push_text_line(out, "from", from.as_str());
            push_text_line(out, "to", to.as_str());
            push_opt_line(out, "expect_file", expect_file);
            push_opt_line(out, "expect_domain", expect_domain);
            push_opt_line(out, "expect_layer", expect_layer);
            assert(out@ =~= o + rule_fields_text(rule_view(*rule)));
        },
        Rule::OverrideRegion { .. } => {
            push_region_fields(out, rule);
        },
        Rule::MaterializeRegion { .. } => {
            push_materialize_fields(out, rule);
        },
        _ => {
            push_exclusion_fields(out, rule);
        },
    }
}

fn push_exclusion_fields(out: &mut Vec<char>, rule: &Rule)
    requires
        !(*rule is OverrideHash || *rule is OverrideRegion || *rule is MaterializeRegion),
    ensures
        final(out)@ == old(out)@ + rule_fields_text(rule_view(*rule)),
{
    let ghost o = out@;
    let (name, sel, n) = match rule {
        Rule::ExcludeKey { key, expected_matches } => ("key", key, *expected_matches),
        Rule::ExcludeKeyPrefix { prefix, expected_matches } => ("prefix", prefix, *expected_matches),
        Rule::ExcludeFilePrefix { prefix, expected_matches } => ("prefix", prefix, *expected_matches),
        Rule::ExcludeFile { file, expected_matches } => ("file", file, *expected_matches),
        _ => {
            return;
        },
    };
    push_text_line(out, name, sel.as_str());
    push_int_line(out, "expected_matches", n);
    assert(out@ =~= o + rule_fields_text(rule_view(*rule)));
}

#[verifier::rlimit(100)]
fn push_region_fields(out: &mut Vec<char>, rule: &Rule)
    requires
        *rule is OverrideRegion,
    ensures
        final(out)@ == old(out)@ + rule_fields_text(rule_view(*rule)),
{
    let ghost o = out@;
    match rule {
        Rule::OverrideRegion {
            key,
            from_hash,
            to_hash,
            from_summary,
            to_summary,
            expect_file,
            to_file,
            expect_domain,
            expect_layer,
        } => {
            push_text_line(out, "key", key.as_str());
            push_opt_line(out, "from_hash", from_hash);
            push_opt_line(out, "to_hash", to_hash);
            push_opt_line(out, "from_summary", from_summary);
            push_opt_line(out, "to_summary", to_summary);
            push_opt_line(out, "expect_file", expect_file);
            push_opt_line(out, "to_file", to_file);
            push_opt_line(out, "expect_domain", expect_domain);
            push_opt_line(out, "expect_layer", expect_layer);
            assert(out@ =~= o + rule_fields_text(rule_view(*rule)));
        },
        _ => {},
    }
}

fn push_materialize_fields(out: &mut Vec<char>, rule: &Rule)
    requires
        *rule is MaterializeRegion,
    ensures
        final(out)@ == old(out)@ + rule_fields_text(rule_view(*rule)),
{
    let ghost o = out@;
    match rule {
        Rule::MaterializeRegion { key, kind, domain, layer, file, summary, hash, status } => {
            push_text_line(out, "key", key.as_str());
            push_text_line(out, "kind", kind.as_str());
            push_opt_line(out, "domain", domain);
            push_opt_line(out, "layer", layer);
            push_text_line(out, "file", file.as_str());
            push_text_line(out, "summary", summary.as_str());
            push_text_line(out, "hash", hash.as_str());
            push_text_line(out, "status", status.as_str());
            assert(out@ =~= o + rule_fields_text(rule_view(*rule)));
        },
        _ => {},
    }
}

fn push_rule_body(out: &mut Vec<char>, rule: &Rule)
    ensures
        final(out)@ == old(out)@ + rule_body(rule_view(*rule)),
{
    let ghost o = out@;
    push_text_line(out, "op", rule.op());
    push_fields(out, rule);
    assert(out@ =~= o + rule_body(rule_view(*rule)));
}

/// Every line of a rule but its `[[rules]]` header; snapshots and recipes
/// write rules in this same canonical form.
pub fn render_rule_body(rule: &Rule) -> (s: String)
    ensures
        s@ == rule_body(rule_view(*rule)),
{
    let mut out: Vec<char> = Vec::new();
    push_rule_body(&mut out, rule);
    string_from(&out)
}

/// The quoted recipes, separated by `, `.
pub open spec fn recipe_list(rs: Seq<Seq<char>>) -> Seq<char>
    decreases rs.len(),
{
    if rs.len() == 0 {
        Seq::empty()
    } else if rs.len() == 1 {
        quoted(rs[0])
    } else {
        recipe_list(rs.drop_last()) + ", "@ + quoted(rs.last())
    }
}

/// The rules, each after a `[[rules]]` header.
pub open spec fn rules_text(rs: Seq<RuleView>) -> Seq<char>
    decreases rs.len(),
{
    if rs.len() == 0 {
        Seq::empty()
    } else {
        rules_text(rs.drop_last()) + "\n[[rules]]\n"@ + rule_body(rs.last())
    }
}

/// The canonical text of a snapshot.
pub open spec fn render_text(s: SnapshotView) -> Seq<char> {
    int_line("schema"@, s.schema as nat) + text_line("id"@, s.id) + text_line("state"@, state_name(s.state))
        + opt_line("predecessor"@, s.predecessor) + opt_line("justification"@, s.justification)
        + "\n[reconstruction]\n"@ + opt_line("base_snapshot"@, s.base_snapshot) + (if s.recipes.len()
        > 0 {
        "recipes = ["@ + recipe_list(s.recipes) + "]\n"@
    } else {
        Seq::empty()
    }) + int_line("expected_overrides"@, s.expected_overrides as nat) + int_line(
        "expected_exclusions"@,
        s.expected_exclusions as nat,
    ) + (if s.expected_materializations > 0 {
        int_line("expected_materializations"@, s.expected_materializations as nat)
    } else {
        Seq::empty()
    }) + "\n[measures]\n"@ + int_line("regions"@, s.measures.regions as nat) + int_line(
        "length"@,
        s.measures.length as nat,
    ) + text_line("fnv1a64"@, fnv_canonical(s.measures.fnv1a64)) + rules_text(sorted_rules(s.rules))
}

/// Every two rules are ordered one way or the other: no two share both the
/// operation and the selector.
pub open spec fn keys_distinct(s: Seq<RuleView>) -> bool {
    forall|i: int, j: int| 0 <= i < s.len() && 0 <= j < s.len() && i != j ==> rule_after(s[i], s[j]) || rule_after(s[j], s[i])
}

/// Strictly increasing in the canonical order.
pub open spec fn strictly_sorted(s: Seq<RuleView>) -> bool {
    forall|i: int, j: int| 0 <= i < j < s.len() ==> rule_after(#[trigger] s[j], #[trigger] s[i])
}

pub(crate) proof fn lemma_after_asym(a: RuleView, b: RuleView)
    ensures
        !(rule_after(a, b) && rule_after(b, a)),
        !rule_after(a, a),
{
    if rule_after(a, b) && rule_after(b, a) {
        crate::text::lemma_seq_lt_trans(super::rule_selector(b), super::rule_selector(a), super::rule_selector(b));
        crate::text::lemma_seq_lt_irrefl_eq(super::rule_selector(b), super::rule_selector(b));
    }
    crate::text::lemma_seq_lt_irrefl_eq(super::rule_selector(a), super::rule_selector(a));
}

proof fn lemma_after_trans(a: RuleView, b: RuleView, c: RuleView)
    requires
        rule_after(a, b),
        rule_after(b, c),
    ensures
        rule_after(a, c),
{
    if super::rule_rank(a) == super::rule_rank(b) && super::rule_rank(b) == super::rule_rank(c) {
        crate::text::lemma_seq_lt_trans(super::rule_selector(c), super::rule_selector(b), super::rule_selector(a));
    }
}

proof fn lemma_insert_rule(t: Seq<RuleView>, x: RuleView)
    requires
        strictly_sorted(t),
        forall|k: int| 0 <= k < t.len() ==> rule_after(#[trigger] t[k], x) || rule_after(x, t[k]),
    ensures
        strictly_sorted(insert_rule(t, x)),
        insert_rule(t, x).to_multiset() == t.to_multiset().insert(x),
    decreases t.len(),
{
    broadcast use vstd::seq_lib::group_to_multiset_ensures;

    if t.len() == 0 {
        assert(insert_rule(t, x) == seq![x]);
        assert(seq![x] =~= Seq::<RuleView>::empty().push(x));
    } else if rule_after(t.last(), x) {
        let d = t.drop_last();
        assert forall|i: int, j: int| 0 <= i < j < d.len() implies rule_after(#[trigger] d[j], #[trigger] d[i]) by {
            assert(d[j] == t[j] && d[i] == t[i]);
        }
        assert forall|k: int| 0 <= k < d.len() implies rule_after(#[trigger] d[k], x) || rule_after(x, d[k]) by {
            assert(d[k] == t[k]);
        }
        lemma_insert_rule(d, x);
        let u = insert_rule(d, x);
        assert(t =~= d.push(t.last()));
        assert forall|i: int, j: int| 0 <= i < j < u.push(t.last()).len() implies rule_after(
            #[trigger] u.push(t.last())[j],
            #[trigger] u.push(t.last())[i],
        ) by {
            if j == u.len() {
                let e = u[i];
                assert(u.contains(e));
                assert(u.to_multiset().count(e) > 0);
                assert(d.to_multiset().insert(x).count(e) > 0);
                if e != x {
                    assert(d.to_multiset().count(e) > 0);
                    assert(d.contains(e));
                    let m = choose|m: int| 0 <= m < d.len() && d[m] == e;
                    assert(t[m] == e);
                    assert(rule_after(t[t.len() - 1], t[m]));
                }
            } else {
                assert(u.push(t.last())[j] == u[j] && u.push(t.last())[i] == u[i]);
            }
        }
        assert(d.to_multiset().insert(x).insert(t.last()) =~= d.to_multiset().insert(t.last()).insert(x));
    } else {
        lemma_after_asym(t.last(), x);
        assert(rule_after(x, t.last()));
        assert forall|i: int, j: int| 0 <= i < j < t.push(x).len() implies rule_after(
            #[trigger] t.push(x)[j],
            #[trigger] t.push(x)[i],
        ) by {
            if j == t.len() {
                if i < t.len() - 1 {
                    assert(rule_after(t[t.len() - 1], t[i]));
                    lemma_after_trans(x, t[t.len() - 1], t[i]);
                }
            } else {
                assert(t.push(x)[j] == t[j] && t.push(x)[i] == t[i]);
            }
        }
    }
}

pub(crate) proof fn lemma_sorted_rules(s: Seq<RuleView>)
    requires
        keys_distinct(s),
    ensures
        strictly_sorted(sorted_rules(s)),
        sorted_rules(s).to_multiset() == s.to_multiset(),
    decreases s.len(),
{
    broadcast use vstd::seq_lib::group_to_multiset_ensures;

    if s.len() == 0 {
    } else {
        let d = s.drop_last();
        let x = s.last();
        assert forall|i: int, j: int| 0 <= i < d.len() && 0 <= j < d.len() && i != j implies rule_after(d[i], d[j])
            || rule_after(d[j], d[i]) by {
            assert(d[i] == s[i] && d[j] == s[j]);
        }
        lemma_sorted_rules(d);
        let t = sorted_rules(d);
        assert forall|k: int| 0 <= k < t.len() implies rule_after(#[trigger] t[k], x) || rule_after(x, t[k]) by {
            let e = t[k];
            assert(t.contains(e));
            assert(t.to_multiset().count(e) > 0);
            assert(d.to_multiset().count(e) > 0);
            assert(d.contains(e));
            let m = choose|m: int| 0 <= m < d.len() && d[m] == e;
            assert(s[m] == e);
            assert(s[s.len() - 1] == x);
        }
        lemma_insert_rule(t, x);
        assert(s =~= d.push(x));
    }
}

pub(crate) proof fn lemma_sorted_unique(a: Seq<RuleView>, b: Seq<RuleView>)
    requires
        strictly_sorted(a),
        strictly_sorted(b),
        a.to_multiset() == b.to_multiset(),
    ensures
        a == b,
    decreases a.len(),
{
    broadcast use vstd::seq_lib::group_to_multiset_ensures;

    assert(a.len() == a.to_multiset().len());
    assert(b.len() == b.to_multiset().len());
    if a.len() == 0 {
        assert(a =~= b);
    } else {
        let n = a.len() - 1;
        let x = a.last();
        let y = b.last();
        assert(a.contains(x));
        assert(b.to_multiset().count(x) > 0);
        assert(b.contains(x));
        let k = choose|k: int| 0 <= k < b.len() && b[k] == x;
        assert(b.contains(y));
        assert(a.to_multiset().count(y) > 0);
        assert(a.contains(y));
        let m = choose|m: int| 0 <= m < a.len() && a[m] == y;
        if x != y {
            assert(k < n);
            assert(m < n);
            assert(rule_after(b[n], b[k]));
            assert(rule_after(a[n], a[m]));
            lemma_after_asym(x, y);
        }
        assert(a =~= a.drop_last().push(x));
        assert(b =~= b.drop_last().push(x));
        assert(a.drop_last().to_multiset() =~= a.to_multiset().remove(x));
        assert(b.drop_last().to_multiset() =~= b.to_multiset().remove(x));
        let ad = a.drop_last();
        let bd = b.drop_last();
        assert forall|i: int, j: int| 0 <= i < j < ad.len() implies rule_after(#[trigger] ad[j], #[trigger] ad[i]) by {
            assert(ad[j] == a[j] && ad[i] == a[i]);
        }
        assert forall|i: int, j: int| 0 <= i < j < bd.len() implies rule_after(#[trigger] bd[j], #[trigger] bd[i]) by {
            assert(bd[j] == b[j] && bd[i] == b[i]);
        }
        lemma_sorted_unique(ad, bd);
    }
}

/// The canonical render does not depend on the order in which the rules
/// were given: two snapshots that differ only in the order of their rules,
/// no two of which share both operation and selector, render to the same
/// text.
pub proof fn law_render_rule_order(s: SnapshotView, s2: SnapshotView)
    requires
        s2 == (SnapshotView { rules: s2.rules, ..s }),
        s2.rules.to_multiset() == s.rules.to_multiset(),
        keys_distinct(s.rules),
        keys_distinct(s2.rules),
    ensures
        render_text(s2) == render_text(s),
{
    lemma_sorted_rules(s.rules);
    lemma_sorted_rules(s2.rules);
    lemma_sorted_unique(sorted_rules(s.rules), sorted_rules(s2.rules));
}

pub(crate) fn push_recipes(out: &mut Vec<char>, rs: &Vec<String>)
    ensures
        final(out)@ == old(out)@ + recipe_list(string_rows(rs@)),
{
    let ghost sv = string_rows(rs@);
    let mut i: usize = 0;
    assert(sv.take(0) =~= Seq::<Seq<char>>::empty());
    assert(old(out)@ + recipe_list(Seq::empty()) =~= old(out)@);
    while i < rs.len()
        invariant
            i <= rs@.len(),
            sv == string_rows(rs@),
            out@ == old(out)@ + recipe_list(sv.take(i as int)),
        decreases rs.len() - i,
    {
        assert(sv.take(i + 1).drop_last() =~= sv.take(i as int));
        assert(sv.take(i + 1).last() == rs@[i as int]@);
        if i > 0 {
            push_str_chars(out, ", ");
        }
        push_quoted(out, rs[i].as_str());
        proof {
            if i == 0 {
                assert(out@ =~= old(out)@ + recipe_list(sv.take(i + 1)));
            } else {
                assert(out@ =~= old(out)@ + recipe_list(sv.take(i + 1)));
            }
        }
        i = i + 1;
    }
    assert(sv.take(i as int) =~= sv);
}

/// Appends the rules in their canonical order, each after a `[[rules]]`
/// header.
pub(crate) fn push_sorted_rules(out: &mut Vec<char>, given: &Vec<Rule>)
    ensures
        final(out)@ == old(out)@ + rules_text(sorted_rules(rules_view(given@))),
{
    let ghost head = out@;
    let mut rules: Vec<Rule> = Vec::new();
    let mut k: usize = 0;
    while k < given.len()
        invariant
            k <= given@.len(),
            rules@ == given@.take(k as int),
        decreases given.len() - k,
    {
        rules.push(clone_rule(&given[k]));
        assert(rules@ =~= given@.take(k + 1));
        k = k + 1;
    }
    assert(given@.take(k as int) =~= given@);
    sort_rules(&mut rules);
    let ghost sorted = rules_view(rules@);
    let mut i: usize = 0;
    assert(sorted.take(0) =~= Seq::<RuleView>::empty());
    assert(head + rules_text(Seq::empty()) =~= head);
    while i < rules.len()
        invariant
            i <= rules@.len(),
            sorted == rules_view(rules@),
            out@ == head + rules_text(sorted.take(i as int)),
        decreases rules.len() - i,
    {
        assert(sorted.take(i + 1).drop_last() =~= sorted.take(i as int));
        assert(sorted.take(i + 1).last() == rule_view(rules@[i as int]));
        push_str_chars(out, "\n[[rules]]\n");
        push_rule_body(out, &rules[i]);
        assert(out@ =~= head + rules_text(sorted.take(i + 1)));
        i = i + 1;
    }
    assert(sorted.take(i as int) =~= sorted);
}

/// Serialises a snapshot in its canonical form.
pub fn render(snapshot: &ProjectionSnapshot) -> (s: String)
    ensures
        s@ == render_text(snapshot_view(*snapshot)),
{
    let ghost sv = snapshot_view(*snapshot);
    let mut out: Vec<char> = Vec::new();
    push_int_line(&mut out, "schema", snapshot.schema);
    push_text_line(&mut out, "id", snapshot.id.as_str());
    push_text_line(&mut out, "state", snapshot.state.as_str());
    push_opt_line(&mut out, "predecessor", &snapshot.predecessor);
    push_opt_line(&mut out, "justification", &snapshot.justification);
    push_str_chars(&mut out, "\n[reconstruction]\n");
    push_opt_line(&mut out, "base_snapshot", &snapshot.base_snapshot);
    let ghost before_recipes = out@;
    if snapshot.recipes.len() > 0 {
        push_str_chars(&mut out, "recipes = [");
        push_recipes(&mut out, &snapshot.recipes);
        push_str_chars(&mut out, "]\n");
    }
    assert(out@ =~= before_recipes + (if sv.recipes.len() > 0 {
        "recipes = ["@ + recipe_list(sv.recipes) + "]\n"@
    } else {
        Seq::empty()
    }));
    push_int_line(&mut out, "expected_overrides", snapshot.expected_overrides);
    push_int_line(&mut out, "expected_exclusions", snapshot.expected_exclusions);
    let ghost before_mat = out@;
    if snapshot.expected_materializations > 0 {
        push_int_line(&mut out, "expected_materializations", snapshot.expected_materializations);
    }
    assert(out@ =~= before_mat + (if sv.expected_materializations > 0 {
        int_line("expected_materializations"@, sv.expected_materializations as nat)
    } else {
        Seq::empty()
    }));
    push_str_chars(&mut out, "\n[measures]\n");
    push_int_line(&mut out, "regions", snapshot.measures.regions);
    push_int_line(&mut out, "length", snapshot.measures.length);
    let canon = snapshot.measures.fnv1a64_canonical();
    push_text_line(&mut out, "fnv1a64", canon.as_str());
    let ghost head = out@;
    push_sorted_rules(&mut out, &snapshot.rules);
    assert(out@ =~= render_text(sv));
    string_from(&out)
}

} // verus!
