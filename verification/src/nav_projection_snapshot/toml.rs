//! The strict TOML subset of the snapshot files: `key = value` pairs under the
//! root, `[reconstruction]`, `[measures]` and repeated `[[rules]]` tables,
//! where a value is a quoted string, a non-negative integer or a one-line list
//! of plain quoted strings.
use super::TomlError;
use crate::native_symbol::{digits_value, is_digit, lemma_digits_value_mono};
use crate::text::{
    chars_of, has_prefix, is_ws, push_all, push_str_chars, slice_vec, split, split_lines, split_vec,
    string_from, string_rows, trim, trimmed, vec_eq, lines,
};
use vstd::prelude::*;

verus! {

/// A scalar value of the accepted subset.
#[derive(Debug, Clone, PartialEq, Eq)]
pub enum Scalar {
    Text(String),
    Integer(u64),
    /// A list of texts, in the declared order (used by `recipes` only).
    List(Vec<String>),
}

/// What a scalar holds.
pub enum ScalarView {
    Text(Seq<char>),
    Integer(u64),
    List(Seq<Seq<char>>),
}

pub open spec fn scalar_view(s: Scalar) -> ScalarView {
    match s {
        Scalar::Text(t) => ScalarView::Text(t@),
        Scalar::Integer(n) => ScalarView::Integer(n),
        Scalar::List(v) => ScalarView::List(string_rows(v@)),
    }
}

impl Scalar {
    /// The integer held, if any.
    pub fn as_integer(&self) -> (r: Option<u64>)
        ensures
            r == (match scalar_view(*self) {
                ScalarView::Integer(n) => Some(n),
                _ => None,
            }),
    {
        match self {
            Scalar::Integer(value) => Some(*value),
            _ => None,
        }
    }
}

/// A table: its pairs in order of appearance, with the line of each.
#[derive(Debug)]
pub struct Table {
    pub pairs: Vec<(String, Scalar, usize)>,
}

/// The key and value of each pair of a table.
pub open spec fn table_view(t: Table) -> Seq<(Seq<char>, ScalarView)> {
    Seq::new(t.pairs@.len(), |i: int| (t.pairs@[i].0@, scalar_view(t.pairs@[i].1)))
}

/// Whether a key occurs among the pairs.
pub open spec fn has_key(t: Seq<(Seq<char>, ScalarView)>, k: Seq<char>) -> bool {
    exists|i: int| 0 <= i < t.len() && #[trigger] t[i].0 == k
}

/// The value of the first pair with the key.
pub open spec fn table_get(t: Seq<(Seq<char>, ScalarView)>, k: Seq<char>) -> Option<ScalarView>
    decreases t.len(),
{
    if t.len() == 0 {
        None
    } else if t[0].0 == k {
        Some(t[0].1)
    } else {
        table_get(t.drop_first(), k)
    }
}

impl Table {
    pub fn new() -> (t: Table)
        ensures
            table_view(t) == Seq::<(Seq<char>, ScalarView)>::empty(),
    {
        let t = Table { pairs: Vec::new() };
        assert(table_view(t) =~= Seq::<(Seq<char>, ScalarView)>::empty());
        t
    }

    /// Index of the pair with the key, if any.
    fn position(&self, key: &str) -> (r: Option<usize>)
        ensures
            r matches Some(i) ==> i < self.pairs@.len() && self.pairs@[i as int].0@ == key@
                && table_get(table_view(*self), key@) == Some(scalar_view(self.pairs@[i as int].1))
                && has_key(table_view(*self), key@),
            r is None ==> !has_key(table_view(*self), key@) && table_get(table_view(*self), key@)
                is None,
    {
        let ghost tv = table_view(*self);
        let mut i: usize = 0;
        assert(tv.skip(0) =~= tv);
        while i < self.pairs.len()
            invariant
                i <= self.pairs@.len(),
                tv == table_view(*self),
                forall|j: int| 0 <= j < i ==> self.pairs@[j].0@ != key@,
                table_get(tv, key@) == table_get(tv.skip(i as int), key@),
            decreases self.pairs.len() - i,
        {
            assert(tv.skip(i as int)[0] == tv[i as int]);
            if crate::text::str_eq(self.pairs[i].0.as_str(), key) {
                assert(tv[i as int].0 == key@);
                return Some(i);
            }
            assert(tv.skip(i as int).drop_first() =~= tv.skip(i + 1));
            i = i + 1;
        }
        assert(tv.skip(i as int).len() == 0);
        assert forall|j: int| 0 <= j < tv.len() implies #[trigger] tv[j].0 != key@ by {
            assert(tv[j].0 == self.pairs@[j].0@);
        }
        None
    }

    /// Adds a pair; a key already present is a TOML error on `line`.
    pub fn insert(&mut self, key: String, value: Scalar, line: usize) -> (r: Result<(), TomlError>)
        ensures
            has_key(table_view(*old(self)), key@) ==> (r matches Err(e) && e.line == line && e.msg@
                == "chave duplicada '"@ + key@ + "'"@ && *final(self) == *old(self)),
            !has_key(table_view(*old(self)), key@) ==> r is Ok && table_view(*final(self)) == table_view(
                *old(self),
            ).push((key@, scalar_view(value))),
    {
        match self.position(key.as_str()) {
            Some(_) => {
                let mut msg: Vec<char> = Vec::new();
                push_str_chars(&mut msg, "chave duplicada '");
                push_str_chars(&mut msg, key.as_str());
                push_str_chars(&mut msg, "'");
                Err(TomlError { line, msg: string_from(&msg) })
            },
            None => {
                let ghost before = table_view(*self);
                self.pairs.push((key, value, line));
                assert(table_view(*self) =~= before.push((key@, scalar_view(value))));
                Ok(())
            },
        }
    }

    /// The value of the pair with the key.
    pub fn get(&self, key: &str) -> (r: Option<&Scalar>)
        ensures
            r matches Some(s) ==> table_get(table_view(*self), key@) == Some(scalar_view(*s)),
            r is None ==> table_get(table_view(*self), key@) is None,
    {
        match self.position(key) {
            Some(i) => Some(&self.pairs[i].1),
            None => None,
        }
    }
}

/// A value without a value.
pub open spec fn empty_value_msg() -> Seq<char> {
    "valor vazio"@
}

/// The items of a one-line list, each a plain quoted text.
pub open spec fn list_items(parts: Seq<Seq<char>>) -> Result<Seq<Seq<char>>, Seq<char>>
    decreases parts.len(),
{
    if parts.len() == 0 {
        Ok(Seq::empty())
    } else {
        let item = trim(parts[0]);
        if !(item.len() >= 2 && item[0] == '"' && item.last() == '"') {
            Err("item de lista fora do formato \"texto\": '"@ + item + "'"@)
        } else {
            let inner = item.subrange(1, item.len() - 1);
            if inner.contains('"') || inner.contains('\\') {
                Err("item de lista não aceita aspas nem escape"@)
            } else {
                match list_items(parts.drop_first()) {
                    Ok(rest) => Ok(seq![inner] + rest),
                    Err(m) => Err(m),
                }
            }
        }
    }
}

/// A list value, given what follows its opening `[`.
pub open spec fn list_value(rest: Seq<char>) -> Result<ScalarView, Seq<char>> {
    if rest.len() == 0 || rest.last() != ']' {
        Err("lista sem ']' de fechamento na mesma linha"@)
    } else {
        let interior = trim(rest.drop_last());
        if interior.len() == 0 {
            Ok(ScalarView::List(Seq::empty()))
        } else {
            match list_items(split(interior, seq![','])) {
                Ok(items) => Ok(ScalarView::List(items)),
                Err(m) => Err(m),
            }
        }
    }
}

/// The character a supported escape stands for.
pub open spec fn unescape(c: char) -> Option<char> {
    if c == '"' {
        Some('"')
    } else if c == '\\' {
        Some('\\')
    } else if c == 'n' {
        Some('\n')
    } else if c == 'r' {
        Some('\r')
    } else if c == 't' {
        Some('\t')
    } else {
        None
    }
}

/// A quoted text from position `i` of what follows its opening quote, with
/// `acc` the characters already decoded.
pub open spec fn quoted_value(rest: Seq<char>, i: int, acc: Seq<char>) -> Result<ScalarView, Seq<char>>
    decreases rest.len() - i,
{
    if i < 0 || i >= rest.len() {
        Err("string incompleta: aspas de fechamento ausentes"@)
    } else if rest[i] == '"' {
        let tail = trim(rest.subrange(i + 1, rest.len() as int));
        if tail.len() > 0 && tail[0] != '#' {
            Err("dado residual após o valor: '"@ + tail + "'"@)
        } else {
            Ok(ScalarView::Text(acc))
        }
    } else if rest[i] == '\\' {
        if i + 1 >= rest.len() {
            Err("string incompleta: escape sem caractere"@)
        } else {
            match unescape(rest[i + 1]) {
                Some(c) => quoted_value(rest, i + 2, acc.push(c)),
                None => Err("escape não suportado '\\"@ + seq![rest[i + 1]] + "'"@),
            }
        }
    } else {
        quoted_value(rest, i + 1, acc.push(rest[i]))
    }
}

/// Index of the first occurrence of `c`, if any.
pub open spec fn first_index(s: Seq<char>, c: char) -> Option<int> {
    if s.contains(c) {
        Some(choose|i: int| 0 <= i < s.len() && s[i] == c && forall|j: int| 0 <= j < i ==> s[j] != c)
    } else {
        None
    }
}

/// The token of an integer value: what precedes a comment, trimmed.
pub open spec fn token_of(input: Seq<char>) -> Seq<char> {
    match first_index(input, '#') {
        Some(p) => trim(input.take(p)),
        None => input,
    }
}

/// The integer a token spells.
pub open spec fn token_value(token: Seq<char>) -> Result<ScalarView, Seq<char>> {
    if token.len() == 0 {
        Err(empty_value_msg())
    } else if token[0] == '-' {
        Err("número negativo não é aceito: '"@ + token + "'"@)
    } else if !(forall|i: int| 0 <= i < token.len() ==> is_digit(#[trigger] token[i])) {
        Err("valor '"@ + token + "' fora do subconjunto aceito (texto entre aspas ou inteiro)"@)
    } else if digits_value(token) > u64::MAX {
        Err("overflow de inteiro em '"@ + token + "'"@)
    } else {
        Ok(ScalarView::Integer(digits_value(token) as u64))
    }
}

/// An integer value (possibly followed by a comment).
pub open spec fn integer_value(input: Seq<char>) -> Result<ScalarView, Seq<char>> {
    token_value(token_of(input))
}

/// The value of a `key = value` line; nothing may follow it but a comment.
pub open spec fn value_of(input: Seq<char>) -> Result<ScalarView, Seq<char>> {
    if input.len() == 0 {
        Err(empty_value_msg())
    } else if input[0] == '[' {
        list_value(input.drop_first())
    } else if input[0] == '"' {
        quoted_value(input.drop_first(), 0, Seq::empty())
    } else {
        integer_value(input)
    }
}

fn msg_of(parts: &str) -> (v: Vec<char>)
    ensures
        v@ == parts@,
{
    chars_of(parts)
}

fn quoted_msg(prefix: &str, body: &Vec<char>, suffix: &str) -> (v: Vec<char>)
    ensures
        v@ == prefix@ + body@ + suffix@,
{
    let mut v: Vec<char> = Vec::new();
    push_str_chars(&mut v, prefix);
    push_all(&mut v, body);
    push_str_chars(&mut v, suffix);
    v
}

/// The strings of a list of character vectors.
fn strings_of(v: &Vec<Vec<char>>) -> (r: Vec<String>)
    ensures
        string_rows(r@) == crate::text::rows(v@),
{
    let mut r: Vec<String> = Vec::new();
    let mut i: usize = 0;
    while i < v.len()
        invariant
            i <= v@.len(),
            r@.len() == i,
            forall|k: int| 0 <= k < i ==> #[trigger] r@[k]@ == v@[k]@,
        decreases v.len() - i,
    {
        r.push(string_from(v[i].as_slice()));
        i = i + 1;
    }
    assert(string_rows(r@) =~= crate::text::rows(v@));
    r
}

fn list_value_exec(rest: &Vec<char>) -> (r: Result<Scalar, Vec<char>>)
    ensures
        match list_value(rest@) {
            Ok(v) => r matches Ok(s) && scalar_view(s) == v,
            Err(m) => r matches Err(e) && e@ == m,
        },
{
    if rest.len() == 0 || rest[rest.len() - 1] != ']' {
        return Err(msg_of("lista sem ']' de fechamento na mesma linha"));
    }
    let interior = trimmed(rest, 0, rest.len() - 1);
    assert(rest@.subrange(0, rest@.len() - 1) =~= rest@.drop_last());
    if interior.len() == 0 {
        let r = Scalar::List(Vec::new());
        assert(scalar_view(r) == ScalarView::List(Seq::empty())) by {
            assert(string_rows(Seq::<String>::empty()) =~= Seq::<Seq<char>>::empty());
        }
        return Ok(r);
    }
    let comma = crate::text::one_char(',');
    let parts = split_vec(&interior, &comma);
    let ghost ps = split(interior@, seq![',']);
    assert(crate::text::rows(parts@) =~= ps);
    let mut items: Vec<Vec<char>> = Vec::new();
    let mut k: usize = 0;
    proof {
        assert(ps.skip(0) =~= ps);
        assert(crate::text::rows(items@) =~= Seq::<Seq<char>>::empty());
        match list_items(ps) {
            Ok(tail) => {
                assert(crate::text::rows(items@) + tail =~= tail);
            },
            Err(_) => {},
        }
    }
    while k < parts.len()
        invariant
            k <= parts@.len(),
            rest@.len() > 0 && rest@.last() == ']',
            interior@ == trim(rest@.drop_last()),
            interior@.len() > 0,
            ps == crate::text::rows(parts@),
            ps == split(interior@, seq![',']),
            list_items(ps) == (match list_items(ps.skip(k as int)) {
                Ok(tail) => Ok(crate::text::rows(items@) + tail),
                Err(m) => Err(m),
            }),
        decreases parts.len() - k,
    {
        assert(ps.skip(k as int)[0] == parts@[k as int]@);
        assert(ps.skip(k as int).drop_first() =~= ps.skip(k + 1));
        let item = trimmed(&parts[k], 0, parts[k].len());
        assert(parts@[k as int]@.subrange(0, parts@[k as int]@.len() as int) =~= parts@[k as int]@);
        let n = item.len();
        assert(item@ == trim(ps.skip(k as int)[0]));
        if !(n >= 2 && item[0] == '"' && item[n - 1] == '"') {
            assert(list_items(ps.skip(k as int)) == Err::<Seq<Seq<char>>, Seq<char>>(
                "item de lista fora do formato \"texto\": '"@ + item@ + "'"@,
            ));
            return Err(quoted_msg("item de lista fora do formato \"texto\": '", &item, "'"));
        }
        let inner = slice_vec(&item, 1, n - 1);
        let mut bad = false;
        let mut j: usize = 0;
        while j < inner.len()
            invariant
                j <= inner@.len(),
                bad == exists|m: int| 0 <= m < j && (inner@[m] == '"' || inner@[m] == '\\'),
            decreases inner.len() - j,
        {
            if inner[j] == '"' || inner[j] == '\\' {
                bad = true;
            }
            j = j + 1;
        }
        assert(inner@ == item@.subrange(1, item@.len() - 1));
        if bad {
            assert(inner@.contains('"') || inner@.contains('\\'));
            assert(list_items(ps.skip(k as int)) == Err::<Seq<Seq<char>>, Seq<char>>(
                "item de lista não aceita aspas nem escape"@,
            ));

            return Err(msg_of("item de lista não aceita aspas nem escape"));
        }
        assert(!inner@.contains('"')) by {
            if inner@.contains('"') {
                let m = choose|m: int| 0 <= m < inner@.len() && inner@[m] == '"';
                assert(inner@[m] == '"');
            }
        }
        assert(!inner@.contains('\\')) by {
            if inner@.contains('\\') {
                let m = choose|m: int| 0 <= m < inner@.len() && inner@[m] == '\\';
                assert(inner@[m] == '\\');
            }
        }
        let ghost before = items@;
        items.push(inner);
        proof {
            assert(crate::text::rows(items@) =~= crate::text::rows(before) + seq![inner@]);
            match list_items(ps.skip(k + 1)) {
                Ok(tail) => {
                    assert(crate::text::rows(before) + (seq![inner@] + tail) =~= crate::text::rows(
                        items@,
                    ) + tail);
                },
                Err(_) => {},
            }
        }
        k = k + 1;
    }
    assert(ps.skip(k as int) =~= Seq::<Seq<char>>::empty());
    assert(crate::text::rows(items@) + Seq::<Seq<char>>::empty() =~= crate::text::rows(items@));
    let strs = strings_of(&items);
    Ok(Scalar::List(strs))
}

fn quoted_value_exec(rest: &Vec<char>) -> (r: Result<Scalar, Vec<char>>)
    ensures
        match quoted_value(rest@, 0, Seq::empty()) {
            Ok(v) => r matches Ok(s) && scalar_view(s) == v,
            Err(m) => r matches Err(e) && e@ == m,
        },
{
    let mut acc: Vec<char> = Vec::new();
    let mut i: usize = 0;
    while i < rest.len()
        invariant
            i <= rest@.len() + 1,
            quoted_value(rest@, 0, Seq::empty()) == quoted_value(rest@, i as int, acc@),
        decreases rest.len() + 1 - i,
    {
        let c = rest[i];
        if c == '"' {
            let tail = trimmed(rest, i + 1, rest.len());
            if tail.len() > 0 && tail[0] != '#' {
                return Err(quoted_msg("dado residual após o valor: '", &tail, "'"));
            }
            return Ok(Scalar::Text(string_from(&acc)));
        } else if c == '\\' {
            if i + 1 >= rest.len() {
                return Err(msg_of("string incompleta: escape sem caractere"));
            }
            let e = rest[i + 1];
            let d = if e == '"' {
                '"'
            } else if e == '\\' {
                '\\'
            } else if e == 'n' {
                '\n'
            } else if e == 'r' {
                '\r'
            } else if e == 't' {
                '\t'
            } else {
                let mut m: Vec<char> = Vec::new();
                push_str_chars(&mut m, "escape não suportado '\\");
                m.push(e);
                push_str_chars(&mut m, "'");
                return Err(m);
            };
            acc.push(d);
            i = i + 2;
        } else {
            acc.push(c);
            i = i + 1;
        }
    }
    Err(msg_of("string incompleta: aspas de fechamento ausentes"))
}

/// The value of a run of decimal digits, when it fits in a `u64`.
pub fn parse_digits(t: &Vec<char>) -> (r: Option<u64>)
    requires
        forall|i: int| 0 <= i < t@.len() ==> is_digit(#[trigger] t@[i]),
    ensures
        r matches Some(v) ==> v == digits_value(t@),
        r is None ==> digits_value(t@) > u64::MAX,
{
    let mut v: u64 = 0;
    let mut i: usize = 0;
    while i < t.len()
        invariant
            i <= t@.len(),
            forall|k: int| 0 <= k < t@.len() ==> is_digit(#[trigger] t@[k]),
            v == digits_value(t@.take(i as int)),
        decreases t.len() - i,
    {
        assert(t@.take(i + 1).drop_last() =~= t@.take(i as int));
        let d = (t[i] as u32 - '0' as u32) as u64;
        let next = match v.checked_mul(10) {
            Some(m) => m.checked_add(d),
            None => None,
        };
        match next {
            Some(n) => {
                v = n;
            },
            None => {
                proof {
                    lemma_digits_value_mono(t@, i + 1, t@.len() as int);
                    assert(t@.take(t@.len() as int) =~= t@);
                }
                return None;
            },
        }
        i = i + 1;
    }
    assert(t@.take(t@.len() as int) =~= t@);
    Some(v)
}

fn integer_value_exec(input: &Vec<char>) -> (r: Result<Scalar, Vec<char>>)
    ensures
        match integer_value(input@) {
            Ok(v) => r matches Ok(s) && scalar_view(s) == v,
            Err(m) => r matches Err(e) && e@ == m,
        },
{
    let mut p: usize = 0;
    while p < input.len() && input[p] != '#'
        invariant
            p <= input@.len(),
            forall|j: int| 0 <= j < p ==> input@[j] != '#',
        decreases input.len() - p,
    {
        p = p + 1;
    }
    let token = if p < input.len() {
        proof {
            assert(0 <= p < input@.len() && input@[p as int] == '#' && forall|j: int|
                0 <= j < p ==> input@[j] != '#');
            assert(input@.contains('#'));
            let w = choose|i: int|
                0 <= i < input@.len() && input@[i] == '#' && forall|j: int| 0 <= j < i ==> input@[j] != '#';
            if w < p {
                assert(input@[w] == '#');
            }
            if p < w {
                assert(input@[p as int] != '#');
            }
            assert(first_index(input@, '#') == Some(p as int));
            assert(input@.subrange(0, p as int) =~= input@.take(p as int));
        }
        trimmed(input, 0, p)
    } else {
        proof {
            assert(!input@.contains('#')) by {
                if input@.contains('#') {
                    let w = choose|i: int| 0 <= i < input@.len() && input@[i] == '#';
                    assert(input@[w] != '#');
                }
            }
        }
        slice_vec(input, 0, input.len())
    };
    assert(input@.subrange(0, input@.len() as int) =~= input@);
    assert(token@ == token_of(input@));
    if token.len() == 0 {
        return Err(msg_of("valor vazio"));
    }
    if token[0] == '-' {
        return Err(quoted_msg("número negativo não é aceito: '", &token, "'"));
    }
    let mut all = true;
    let mut j: usize = 0;
    while j < token.len()
        invariant
            j <= token@.len(),
            all == forall|m: int| 0 <= m < j ==> is_digit(#[trigger] token@[m]),
        decreases token.len() - j,
    {
        if !('0' <= token[j] && token[j] <= '9') {
            all = false;
        }
        j = j + 1;
    }
    if !all {
        proof {
            let m = choose|m: int| 0 <= m < token@.len() && !is_digit(#[trigger] token@[m]);
            assert(!(forall|i: int| 0 <= i < token@.len() ==> is_digit(#[trigger] token@[i])));
        }
        return Err(
            quoted_msg("valor '", &token, "' fora do subconjunto aceito (texto entre aspas ou inteiro)"),
        );
    }
    match parse_digits(&token) {
        Some(v) => Ok(Scalar::Integer(v)),
        None => Err(quoted_msg("overflow de inteiro em '", &token, "'")),
    }
}

/// Reads a scalar value and demands that nothing but a comment follows it.
pub fn parse_value(input: &Vec<char>, line: usize) -> (r: Result<Scalar, TomlError>)
    ensures
        match value_of(input@) {
            Ok(v) => r matches Ok(s) && scalar_view(s) == v,
            Err(m) => r matches Err(e) && e.line == line && e.msg@ == m,
        },
{
    let out = if input.len() == 0 {
        Err(msg_of("valor vazio"))
    } else if input[0] == '[' {
        let rest = slice_vec(input, 1, input.len());
        assert(rest@ =~= input@.drop_first());
        list_value_exec(&rest)
    } else if input[0] == '"' {
        let rest = slice_vec(input, 1, input.len());
        assert(rest@ =~= input@.drop_first());
        quoted_value_exec(&rest)
    } else {
        integer_value_exec(input)
    };
    match out {
        Ok(s) => Ok(s),
        Err(m) => Err(TomlError { line, msg: string_from(&m) }),
    }
}

/// The table a `key = value` line goes to.
#[derive(Debug, Clone, Copy, PartialEq, Eq, Structural)]
pub enum Section {
    Root,
    Reconstruction,
    Measures,
    Rule(usize),
}

/// What a document read so far holds.
pub struct DocView {
    pub root: Seq<(Seq<char>, ScalarView)>,
    pub reconstruction: Option<Seq<(Seq<char>, ScalarView)>>,
    pub measures: Option<Seq<(Seq<char>, ScalarView)>>,
    pub rules: Seq<Seq<(Seq<char>, ScalarView)>>,
}

/// The raw document: its tables, before any validation of the schema.
#[derive(Debug)]
pub struct RawDocument {
    pub root: Table,
    pub reconstruction: Option<Table>,
    pub measures: Option<Table>,
    pub rules: Vec<Table>,
}

pub open spec fn opt_table_view(t: Option<Table>) -> Option<Seq<(Seq<char>, ScalarView)>> {
    match t {
        Some(t) => Some(table_view(t)),
        None => None,
    }
}

pub open spec fn tables_view(ts: Seq<Table>) -> Seq<Seq<(Seq<char>, ScalarView)>> {
    Seq::new(ts.len(), |i: int| table_view(ts[i]))
}

pub open spec fn doc_view(d: RawDocument) -> DocView {
    DocView {
        root: table_view(d.root),
        reconstruction: opt_table_view(d.reconstruction),
        measures: opt_table_view(d.measures),
        rules: tables_view(d.rules@),
    }
}

/// The characters a key may hold: `[a-z0-9_]`.
pub open spec fn key_char(c: char) -> bool {
    ('a' <= c && c <= 'z') || ('0' <= c && c <= '9') || c == '_'
}

pub open spec fn dup_msg(key: Seq<char>) -> Seq<char> {
    "chave duplicada '"@ + key + "'"@
}

/// Adds a pair to a table, refusing a key already there.
pub open spec fn add_pair(t: Seq<(Seq<char>, ScalarView)>, key: Seq<char>, v: ScalarView) -> Option<
    Seq<(Seq<char>, ScalarView)>,
> {
    if has_key(t, key) {
        None
    } else {
        Some(t.push((key, v)))
    }
}

/// Adds a pair to the current table.
pub open spec fn insert_pair(d: DocView, cur: Section, key: Seq<char>, v: ScalarView, n: int) -> Result<
    DocView,
    (int, Seq<char>),
> {
    match cur {
        Section::Root => match add_pair(d.root, key, v) {
            Some(t) => Ok(DocView { root: t, ..d }),
            None => Err((n, dup_msg(key))),
        },
        Section::Reconstruction => match d.reconstruction {
            Some(t0) => match add_pair(t0, key, v) {
                Some(t) => Ok(DocView { reconstruction: Some(t), ..d }),
                None => Err((n, dup_msg(key))),
            },
            None => Ok(d),
        },
        Section::Measures => match d.measures {
            Some(t0) => match add_pair(t0, key, v) {
                Some(t) => Ok(DocView { measures: Some(t), ..d }),
                None => Err((n, dup_msg(key))),
            },
            None => Ok(d),
        },
        Section::Rule(i) => if i < d.rules.len() {
            match add_pair(d.rules[i as int], key, v) {
                Some(t) => Ok(DocView { rules: d.rules.update(i as int, t), ..d }),
                None => Err((n, dup_msg(key))),
            }
        } else {
            Ok(d)
        },
    }
}

/// One line of the document, numbered `n`, read in the state `(d, cur)`.
pub open spec fn line_step(array: Seq<char>, d: DocView, cur: Section, raw: Seq<char>, n: int) -> Result<
    (DocView, Section),
    (int, Seq<char>),
> {
    let line = trim(raw);
    if line.len() == 0 || line[0] == '#' {
        Ok((d, cur))
    } else if has_prefix(line, "[["@) {
        let rest = line.skip(2);
        if !crate::text::has_suffix(rest, "]]"@) {
            Err((n, "cabeçalho de array de tabelas sem ']]'"@))
        } else {
            let name = trim(rest.take(rest.len() - 2));
            if name != array {
                Err((n, "array de tabelas desconhecido '[["@ + name + "]]'"@))
            } else {
                Ok(
                    (
                        DocView { rules: d.rules.push(Seq::empty()), ..d },
                        Section::Rule(d.rules.len() as usize),
                    ),
                )
            }
        }
    } else if line[0] == '[' {
        let rest = line.skip(1);
        if !(rest.len() > 0 && rest.last() == ']') {
            Err((n, "cabeçalho de seção sem ']'"@))
        } else {
            let name = trim(rest.drop_last());
            if name == "reconstruction"@ {
                if d.reconstruction is Some {
                    Err((n, "seção duplicada '[reconstruction]'"@))
                } else {
                    Ok(
                        (
                            DocView { reconstruction: Some(Seq::empty()), ..d },
                            Section::Reconstruction,
                        ),
                    )
                }
            } else if name == "measures"@ {
                if d.measures is Some {
                    Err((n, "seção duplicada '[measures]'"@))
                } else {
                    Ok((DocView { measures: Some(Seq::empty()), ..d }, Section::Measures))
                }
            } else {
                Err((n, "seção desconhecida '["@ + name + "]'"@))
            }
        }
    } else {
        match first_index(line, '=') {
            None => Err((n, "linha sem '=' (esperado 'chave = valor')"@)),
            Some(eq) => {
                let key = trim(line.take(eq));
                if key.len() == 0 {
                    Err((n, "chave vazia"@))
                } else if !(forall|i: int| 0 <= i < key.len() ==> key_char(#[trigger] key[i])) {
                    Err((n, "chave '"@ + key + "' fora do alfabeto aceito ([a-z0-9_])"@))
                } else {
                    match value_of(trim(line.skip(eq + 1))) {
                        Err(m) => Err((n, m)),
                        Ok(v) => match insert_pair(d, cur, key, v, n) {
                            Ok(d2) => Ok((d2, cur)),
                            Err(e) => Err(e),
                        },
                    }
                }
            }
        }
    }
}

/// The lines from `i` on, read from the state `(d, cur)`.
pub open spec fn read_lines(array: Seq<char>, ls: Seq<Seq<char>>, i: int, d: DocView, cur: Section) -> Result<
    DocView,
    (int, Seq<char>),
>
    decreases ls.len() - i,
{
    if i < 0 || i >= ls.len() {
        Ok(d)
    } else {
        match line_step(array, d, cur, ls[i], i + 1) {
            Ok((d2, c2)) => read_lines(array, ls, i + 1, d2, c2),
            Err(e) => Err(e),
        }
    }
}

pub open spec fn empty_doc() -> DocView {
    DocView { root: Seq::empty(), reconstruction: None, measures: None, rules: Seq::empty() }
}

/// The document a text holds, or the first line that breaks the subset.
pub open spec fn raw_document(text: Seq<char>) -> Result<DocView, (int, Seq<char>)> {
    raw_document_with(text, "rules"@)
}

/// The document a text holds when its array of tables is named `array`.
pub open spec fn raw_document_with(text: Seq<char>, array: Seq<char>) -> Result<DocView, (int, Seq<char>)> {
    read_lines(array, lines(text), 0, empty_doc(), Section::Root)
}

/// The document under construction while the lines are read.
struct Reader {
    root: Table,
    recon: Table,
    has_recon: bool,
    meas: Table,
    has_meas: bool,
    rules: Vec<Table>,
    current: Section,
}

impl Reader {
    spec fn doc(self) -> DocView {
        DocView {
            root: table_view(self.root),
            reconstruction: if self.has_recon { Some(table_view(self.recon)) } else { None },
            measures: if self.has_meas { Some(table_view(self.meas)) } else { None },
            rules: tables_view(self.rules@),
        }
    }

    spec fn wf(self) -> bool {
        &&& self.current == Section::Reconstruction ==> self.has_recon
        &&& self.current == Section::Measures ==> self.has_meas
        &&& self.current matches Section::Rule(i) ==> i + 1 == self.rules@.len()
    }

    fn insert(&mut self, key: String, v: Scalar, n: usize) -> (r: Result<(), TomlError>)
        requires
            old(self).wf(),
        ensures
            final(self).wf(),
            final(self).current == old(self).current,
            final(self).rules@.len() == old(self).rules@.len(),
            match insert_pair(old(self).doc(), old(self).current, key@, scalar_view(v), n as int) {
                Ok(d) => r is Ok && final(self).doc() == d,
                Err((ln, m)) => r matches Err(e) && e.line == ln && e.msg@ == m,
            },
    {
        let ghost d0 = self.doc();
        match self.current {
            Section::Root => {
                let r = self.root.insert(key, v, n);
                proof {
                    if r is Ok {
                        assert(self.doc() =~= DocView { root: table_view(self.root), ..d0 });
                    }
                }
                r
            },
            Section::Reconstruction => {
                let r = self.recon.insert(key, v, n);
                proof {
                    if r is Ok {
                        assert(self.doc() =~= DocView { reconstruction: Some(table_view(self.recon)), ..d0 });
                    }
                }
                r
            },
            Section::Measures => {
                let r = self.meas.insert(key, v, n);
                proof {
                    if r is Ok {
                        assert(self.doc() =~= DocView { measures: Some(table_view(self.meas)), ..d0 });
                    }
                }
                r
            },
            Section::Rule(i) => {
                let ghost rules0 = self.rules@;
                let mut t = self.rules.pop().unwrap();
                assert(rules0 == self.rules@.push(t));
                assert(tables_view(rules0)[i as int] == table_view(t));
                let r = t.insert(key, v, n);
                self.rules.push(t);
                proof {
                    if r is Ok {
                        assert(tables_view(self.rules@) =~= tables_view(rules0).update(
                            i as int,
                            table_view(t),
                        ));
                    } else {
                        assert(self.rules@ =~= rules0);
                    }
                }
                r
            },
        }
    }
}

fn key_chars_ok(key: &Vec<char>) -> (b: bool)
    ensures
        b == (forall|i: int| 0 <= i < key@.len() ==> key_char(#[trigger] key@[i])),
{
    let mut i: usize = 0;
    while i < key.len()
        invariant
            i <= key@.len(),
            forall|j: int| 0 <= j < i ==> key_char(#[trigger] key@[j]),
        decreases key.len() - i,
    {
        let c = key[i];
        if !(('a' <= c && c <= 'z') || ('0' <= c && c <= '9') || c == '_') {
            assert(!key_char(key@[i as int]));
            return false;
        }
        i = i + 1;
    }
    true
}

fn toml_err(line: usize, msg: Vec<char>) -> (e: TomlError)
    ensures
        e.line == line,
        e.msg@ == msg@,
{
    TomlError { line, msg: string_from(&msg) }
}

impl Reader {
    /// Reads line `n` of the document.
    fn feed(&mut self, array: &Vec<char>, raw: &Vec<char>, n: usize) -> (r: Result<(), TomlError>)
        requires
            old(self).wf(),
            old(self).rules@.len() < usize::MAX,
        ensures
            final(self).wf(),
            final(self).rules@.len() <= old(self).rules@.len() + 1,
            match line_step(array@, old(self).doc(), old(self).current, raw@, n as int) {
                Ok((d, c)) => r is Ok && final(self).doc() == d && final(self).current == c,
                Err((ln, m)) => r matches Err(e) && e.line == ln && e.msg@ == m,
            },
    {
        let ghost d0 = self.doc();
        let line = trimmed(raw, 0, raw.len());
        assert(raw@.subrange(0, raw@.len() as int) =~= raw@);
        let len = line.len();
        if len == 0 || line[0] == '#' {
            return Ok(());
        }
        let open2 = chars_of("[[");
        proof {
            reveal_strlit("[[");
        }
        if crate::text::matches_at(&line, 0, &open2) {
            let rest = slice_vec(&line, 2, len);
            assert(rest@ =~= line@.skip(2));
            let rl = rest.len();
            if !(rl >= 2 && rest[rl - 2] == ']' && rest[rl - 1] == ']') {
                proof {
                    if crate::text::has_suffix(rest@, "]]"@) {
                        reveal_strlit("]]");
                        assert(rest@.subrange(rl - 2, rl as int)[0] == ']');
                        assert(rest@.subrange(rl - 2, rl as int)[1] == ']');
                    }
                }
                return Err(toml_err(n, chars_of("cabeçalho de array de tabelas sem ']]'")));
            }
            proof {
                reveal_strlit("]]");
                assert(rest@.subrange(rl - 2, rl as int) =~= "]]"@);
            }
            let name = trimmed(&rest, 0, rl - 2);
            assert(rest@.subrange(0, rl - 2) =~= rest@.take(rl - 2));
            if !vec_eq(&name, array) {
                let mut m: Vec<char> = Vec::new();
                push_str_chars(&mut m, "array de tabelas desconhecido '[[");
                push_all(&mut m, &name);
                push_str_chars(&mut m, "]]'");
                return Err(toml_err(n, m));
            }
            let ghost rules0 = self.rules@;
            self.rules.push(Table::new());
            self.current = Section::Rule(self.rules.len() - 1);
            assert(tables_view(self.rules@) =~= tables_view(rules0).push(Seq::empty()));
            assert(self.doc() =~= DocView { rules: d0.rules.push(Seq::empty()), ..d0 });
            return Ok(());
        }
        proof {
            reveal_strlit("[[");
        }
        if line[0] == '[' {
            let rest = slice_vec(&line, 1, len);
            assert(rest@ =~= line@.skip(1));
            let rl = rest.len();
            if !(rl > 0 && rest[rl - 1] == ']') {
                return Err(toml_err(n, chars_of("cabeçalho de seção sem ']'")));
            }
            let name = trimmed(&rest, 0, rl - 1);
            assert(rest@.subrange(0, rl - 1) =~= rest@.drop_last());
            if vec_eq(&name, &chars_of("reconstruction")) {
                if self.has_recon {
                    return Err(toml_err(n, chars_of("seção duplicada '[reconstruction]'")));
                }
                self.has_recon = true;
                self.recon = Table::new();
                self.current = Section::Reconstruction;
                assert(self.doc() =~= DocView { reconstruction: Some(Seq::empty()), ..d0 });
                return Ok(());
            }
            if vec_eq(&name, &chars_of("measures")) {
                if self.has_meas {
                    return Err(toml_err(n, chars_of("seção duplicada '[measures]'")));
                }
                self.has_meas = true;
                self.meas = Table::new();
                self.current = Section::Measures;
                assert(self.doc() =~= DocView { measures: Some(Seq::empty()), ..d0 });
                return Ok(());
            }
            let mut m: Vec<char> = Vec::new();
            push_str_chars(&mut m, "seção desconhecida '[");
            push_all(&mut m, &name);
            push_str_chars(&mut m, "]'");
            return Err(toml_err(n, m));
        }
        let mut eq: usize = 0;
        while eq < len && line[eq] != '='
            invariant
                eq <= len,
                len == line@.len(),
                forall|j: int| 0 <= j < eq ==> line@[j] != '=',
            decreases len - eq,
        {
            eq = eq + 1;
        }
        if eq == len {
            proof {
                assert(!line@.contains('=')) by {
                    if line@.contains('=') {
                        let w = choose|i: int| 0 <= i < line@.len() && line@[i] == '=';
                        assert(line@[w] != '=');
                    }
                }
            }
            return Err(toml_err(n, chars_of("linha sem '=' (esperado 'chave = valor')")));
        }
        proof {
            assert(0 <= eq < line@.len() && line@[eq as int] == '=' && forall|j: int|
                0 <= j < eq ==> line@[j] != '=');
            assert(line@.contains('='));
            let w = choose|i: int|
                0 <= i < line@.len() && line@[i] == '=' && forall|j: int| 0 <= j < i ==> line@[j] != '=';
            if w < eq {
                assert(line@[w] == '=');
            }
            if eq < w {
                assert(line@[eq as int] != '=');
            }
            assert(first_index(line@, '=') == Some(eq as int));
        }
        let key = trimmed(&line, 0, eq);
        assert(line@.subrange(0, eq as int) =~= line@.take(eq as int));
        if key.len() == 0 {
            return Err(toml_err(n, chars_of("chave vazia")));
        }
        if !key_chars_ok(&key) {
            let mut m: Vec<char> = Vec::new();
            push_str_chars(&mut m, "chave '");
            push_all(&mut m, &key);
            push_str_chars(&mut m, "' fora do alfabeto aceito ([a-z0-9_])");
            return Err(toml_err(n, m));
        }
        let vtext = trimmed(&line, eq + 1, len);
        assert(line@.subrange(eq + 1, len as int) =~= line@.skip(eq + 1));
        let v = match parse_value(&vtext, n) {
            Ok(v) => v,
            Err(e) => {
                return Err(e);
            },
        };
        self.insert(string_from(&key), v, n)
    }
}

/// Reads the tables of a text, before any validation of the schema.
pub fn parse_raw(text: &str) -> (r: Result<RawDocument, TomlError>)
    ensures
        match raw_document(text@) {
            Ok(d) => r matches Ok(doc) && doc_view(doc) == d,
            Err((ln, m)) => r matches Err(e) && e.line == ln && e.msg@ == m,
        },
{
    parse_raw_with_array(text, "rules")
}

/// Reads the tables of a text whose array of tables is named `array`, before
/// any validation of the schema.
pub fn parse_raw_with_array(text: &str, array: &str) -> (r: Result<RawDocument, TomlError>)
    ensures
        match raw_document_with(text@, array@) {
            Ok(d) => r matches Ok(doc) && doc_view(doc) == d,
            Err((ln, m)) => r matches Err(e) && e.line == ln && e.msg@ == m,
        },
{
    let array_name = chars_of(array);
    let chars = chars_of(text);
    let ls = split_lines(&chars);
    let ghost all = lines(text@);
    let mut reader = Reader {
        root: Table::new(),
        recon: Table::new(),
        has_recon: false,
        meas: Table::new(),
        has_meas: false,
        rules: Vec::new(),
        current: Section::Root,
    };
    assert(tables_view(reader.rules@) =~= Seq::<Seq<(Seq<char>, ScalarView)>>::empty());
    assert(reader.doc() =~= empty_doc());
    let mut i: usize = 0;
    while i < ls.len()
        invariant
            i <= ls@.len(),
            all == lines(text@),
            ls@.len() == all.len(),
            forall|k: int| 0 <= k < ls@.len() ==> #[trigger] ls@[k]@ == all[k],
            reader.wf(),
            reader.rules@.len() <= i,
            raw_document_with(text@, array@) == read_lines(array@, all, i as int, reader.doc(), reader.current),
            array_name@ == array@,
        decreases ls.len() - i,
    {
        assert(ls@[i as int]@ == all[i as int]);
        let r = reader.feed(&array_name, &ls[i], i + 1);
        match r {
            Ok(()) => {},
            Err(e) => {
                return Err(e);
            },
        }
        i = i + 1;
    }
    let reconstruction = if reader.has_recon {
        Some(reader.recon)
    } else {
        None
    };
    let measures = if reader.has_meas {
        Some(reader.meas)
    } else {
        None
    };
    let doc = RawDocument { root: reader.root, reconstruction, measures, rules: reader.rules };
    assert(doc_view(doc) =~= reader.doc());
    Ok(doc)
}

} // verus!
