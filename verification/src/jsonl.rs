//! The JSON objects of the project's JSONL files: one object per line, whose
//! values are texts, integers, booleans, `null` or flat lists of those.
//! Nested objects and lists of lists are refused, and so is a key declared
//! twice.
use crate::text::{chars_of, decimal, push_decimal, push_str_chars, string_from};
use vstd::prelude::*;

verus! {

/// A value that is not a list.
#[derive(Debug, Clone, PartialEq, Eq)]
pub enum JsonScalar {
    Str(String),
    Int(i64),
    Bool(bool),
    Null,
}

/// A value of an object.
#[derive(Debug, Clone, PartialEq, Eq)]
pub enum JsonValue {
    Scalar(JsonScalar),
    Array(Vec<JsonScalar>),
}

/// An object: its members in order.
#[derive(Debug, Clone, PartialEq, Eq)]
pub struct JsonObject {
    pub members: Vec<(String, JsonValue)>,
}

/// A line that is not an accepted JSON object.
#[derive(Debug, Clone, PartialEq, Eq)]
pub struct JsonError {
    pub msg: String,
}

pub enum ScalarView {
    Str(Seq<char>),
    Int(i64),
    Bool(bool),
    Null,
}

pub enum ValueView {
    Scalar(ScalarView),
    Array(Seq<ScalarView>),
}

pub open spec fn scalar_view(s: JsonScalar) -> ScalarView {
    match s {
        JsonScalar::Str(t) => ScalarView::Str(t@),
        JsonScalar::Int(n) => ScalarView::Int(n),
        JsonScalar::Bool(b) => ScalarView::Bool(b),
        JsonScalar::Null => ScalarView::Null,
    }
}

pub open spec fn scalars_view(v: Seq<JsonScalar>) -> Seq<ScalarView> {
    Seq::new(v.len(), |i: int| scalar_view(v[i]))
}

pub open spec fn value_view(v: JsonValue) -> ValueView {
    match v {
        JsonValue::Scalar(s) => ValueView::Scalar(scalar_view(s)),
        JsonValue::Array(a) => ValueView::Array(scalars_view(a@)),
    }
}

pub open spec fn object_view(o: JsonObject) -> Seq<(Seq<char>, ValueView)> {
    Seq::new(o.members@.len(), |i: int| (o.members@[i].0@, value_view(o.members@[i].1)))
}

/// JSON whitespace.
pub open spec fn json_ws(c: char) -> bool {
    c == ' ' || c == '\t' || c == '\n' || c == '\r'
}

/// The first position at or after `i` that is not whitespace.
pub open spec fn skip_json_ws(s: Seq<char>, i: int) -> int
    decreases s.len() - i,
{
    if 0 <= i < s.len() && json_ws(s[i]) {
        skip_json_ws(s, i + 1)
    } else {
        i
    }
}

pub open spec fn hex_val(c: char) -> int {
    if '0' <= c && c <= '9' {
        (c as u32) - ('0' as u32)
    } else if 'a' <= c && c <= 'f' {
        (c as u32) - ('a' as u32) + 10
    } else if 'A' <= c && c <= 'F' {
        (c as u32) - ('A' as u32) + 10
    } else {
        -1
    }
}

/// The code point of four hexadecimal digits at `i`, if they are there.
pub open spec fn hex4_at(s: Seq<char>, i: int) -> Option<int> {
    if 0 <= i && i + 4 <= s.len() && hex_val(s[i]) >= 0 && hex_val(s[i + 1]) >= 0 && hex_val(s[i + 2])
        >= 0 && hex_val(s[i + 3]) >= 0 {
        Some(hex_val(s[i]) * 4096 + hex_val(s[i + 1]) * 256 + hex_val(s[i + 2]) * 16 + hex_val(s[i + 3]))
    } else {
        None
    }
}

/// The character of a one-letter escape.
pub open spec fn simple_escape(c: char) -> Option<char> {
    if c == '"' {
        Some('"')
    } else if c == '\\' {
        Some('\\')
    } else if c == '/' {
        Some('/')
    } else if c == 'b' {
        Some('\u{8}')
    } else if c == 'f' {
        Some('\u{c}')
    } else if c == 'n' {
        Some('\n')
    } else if c == 'r' {
        Some('\r')
    } else if c == 't' {
        Some('\t')
    } else {
        None
    }
}

/// The rest of a string from `i` (after its opening quote), with `acc` the
/// characters decoded so far: the text and the position after the closing
/// quote, or the position of the fault.
pub open spec fn string_rest(s: Seq<char>, i: int, acc: Seq<char>) -> Result<(Seq<char>, int), int>
    decreases s.len() - i,
{
    if i < 0 || i >= s.len() {
        Err(i)
    } else if s[i] == '"' {
        Ok((acc, i + 1))
    } else if s[i] == '\\' {
        if i + 1 >= s.len() {
            Err(i)
        } else if s[i + 1] == 'u' {
            match hex4_at(s, i + 2) {
                Some(cp) => if (0xD800 <= cp && cp <= 0xDFFF) {
                    Err(i)
                } else {
                    string_rest(s, i + 6, acc.push(cp as char))
                },
                None => Err(i),
            }
        } else {
            match simple_escape(s[i + 1]) {
                Some(c) => string_rest(s, i + 2, acc.push(c)),
                None => Err(i),
            }
        }
    } else if (s[i] as u32) < 0x20 {
        Err(i)
    } else {
        string_rest(s, i + 1, acc.push(s[i]))
    }
}

/// A string starting at `i`.
pub open spec fn string_at(s: Seq<char>, i: int) -> Result<(Seq<char>, int), int> {
    if 0 <= i < s.len() && s[i] == '"' {
        string_rest(s, i + 1, Seq::empty())
    } else {
        Err(i)
    }
}

pub open spec fn is_digit(c: char) -> bool {
    '0' <= c && c <= '9'
}

/// The end of the run of digits from `i`.
pub open spec fn digits_end(s: Seq<char>, i: int) -> int
    decreases s.len() - i,
{
    if 0 <= i < s.len() && is_digit(s[i]) {
        digits_end(s, i + 1)
    } else {
        i
    }
}

/// The value of the digits `s[i..j]`.
pub open spec fn digits_val(s: Seq<char>, i: int, j: int) -> int
    decreases j - i,
{
    if j <= i {
        0
    } else {
        digits_val(s, i, j - 1) * 10 + ((s[j - 1] as u32) - ('0' as u32))
    }
}

/// An integer starting at `i`: an optional `-`, then `0` or digits without a
/// leading zero, with no fraction or exponent, within `i64`.
pub open spec fn number_at(s: Seq<char>, i: int) -> Result<(i64, int), int> {
    let neg = 0 <= i < s.len() && s[i] == '-';
    let d = if neg {
        i + 1
    } else {
        i
    };
    let e = digits_end(s, d);
    let v = if neg {
        -digits_val(s, d, e)
    } else {
        digits_val(s, d, e)
    };
    if e == d {
        Err(i)
    } else if e - d > 1 && s[d] == '0' {
        Err(i)
    } else if e < s.len() && (s[e] == '.' || s[e] == 'e' || s[e] == 'E') {
        Err(i)
    } else if v < i64::MIN || v > i64::MAX {
        Err(i)
    } else {
        Ok((v as i64, e))
    }
}

/// Whether the word `w` stands at `i`.
pub open spec fn word_at(s: Seq<char>, i: int, w: Seq<char>) -> bool {
    0 <= i && i + w.len() <= s.len() && s.subrange(i, i + w.len()) == w
}

/// A value that is not a list, starting at `i`.
pub open spec fn scalar_at(s: Seq<char>, i: int) -> Result<(ScalarView, int), int> {
    if !(0 <= i < s.len()) {
        Err(i)
    } else if s[i] == '"' {
        match string_at(s, i) {
            Ok((t, j)) => Ok((ScalarView::Str(t), j)),
            Err(p) => Err(p),
        }
    } else if s[i] == '-' || is_digit(s[i]) {
        match number_at(s, i) {
            Ok((n, j)) => Ok((ScalarView::Int(n), j)),
            Err(p) => Err(p),
        }
    } else if word_at(s, i, seq!['t', 'r', 'u', 'e']) {
        Ok((ScalarView::Bool(true), i + 4))
    } else if word_at(s, i, seq!['f', 'a', 'l', 's', 'e']) {
        Ok((ScalarView::Bool(false), i + 5))
    } else if word_at(s, i, seq!['n', 'u', 'l', 'l']) {
        Ok((ScalarView::Null, i + 4))
    } else {
        Err(i)
    }
}

/// The items of a list from `i` (just after an item or the opening bracket),
/// with `acc` the items read so far.
pub open spec fn array_rest(s: Seq<char>, i: int, acc: Seq<ScalarView>) -> Result<
    (Seq<ScalarView>, int),
    int,
>
    decreases s.len() - i,
{
    let k = skip_json_ws(s, i);
    if !(0 <= k < s.len()) || k < i {
        Err(k)
    } else if s[k] == ']' {
        Ok((acc, k + 1))
    } else if s[k] == ',' && acc.len() > 0 {
        let m = skip_json_ws(s, k + 1);
        match scalar_at(s, m) {
            Ok((v, j)) => if j <= i || j > s.len() {
                Err(m)
            } else {
                array_rest(s, j, acc.push(v))
            },
            Err(p) => Err(p),
        }
    } else if acc.len() == 0 && s[k] != ',' {
        match scalar_at(s, k) {
            Ok((v, j)) => if j <= i || j > s.len() {
                Err(k)
            } else {
                array_rest(s, j, acc.push(v))
            },
            Err(p) => Err(p),
        }
    } else {
        Err(k)
    }
}

/// A value starting at `i`.
pub open spec fn value_at(s: Seq<char>, i: int) -> Result<(ValueView, int), int> {
    if 0 <= i < s.len() && s[i] == '[' {
        match array_rest(s, i + 1, Seq::empty()) {
            Ok((a, j)) => Ok((ValueView::Array(a), j)),
            Err(p) => Err(p),
        }
    } else {
        match scalar_at(s, i) {
            Ok((v, j)) => Ok((ValueView::Scalar(v), j)),
            Err(p) => Err(p),
        }
    }
}

pub open spec fn has_member(m: Seq<(Seq<char>, ValueView)>, k: Seq<char>) -> bool {
    exists|i: int| 0 <= i < m.len() && #[trigger] m[i].0 == k
}

/// One member `"key": value` starting at `i`.
pub open spec fn member_at(s: Seq<char>, i: int) -> Result<((Seq<char>, ValueView), int), int> {
    match string_at(s, i) {
        Err(p) => Err(p),
        Ok((k, j)) => {
            let c = skip_json_ws(s, j);
            if !(0 <= c < s.len() && s[c] == ':') {
                Err(c)
            } else {
                let v = skip_json_ws(s, c + 1);
                match value_at(s, v) {
                    Ok((val, e)) => Ok(((k, val), e)),
                    Err(p) => Err(p),
                }
            }
        },
    }
}

/// The members of an object from `i` (just after a member or the opening
/// brace), with `acc` the members read so far.
pub open spec fn members_rest(s: Seq<char>, i: int, acc: Seq<(Seq<char>, ValueView)>) -> Result<
    (Seq<(Seq<char>, ValueView)>, int),
    int,
>
    decreases s.len() - i,
{
    let k = skip_json_ws(s, i);
    if !(0 <= k < s.len()) || k < i {
        Err(k)
    } else if s[k] == '}' {
        Ok((acc, k + 1))
    } else {
        let start = if s[k] == ',' && acc.len() > 0 {
            skip_json_ws(s, k + 1)
        } else {
            k
        };
        if s[k] == ',' && acc.len() == 0 {
            Err(k)
        } else if s[k] != ',' && acc.len() > 0 {
            Err(k)
        } else {
            match member_at(s, start) {
                Ok((m, j)) => if j <= i || j > s.len() {
                    Err(start)
                } else if has_member(acc, m.0) {
                    Err(start)
                } else {
                    members_rest(s, j, acc.push(m))
                },
                Err(p) => Err(p),
            }
        }
    }
}

/// The members of a line holding one JSON object, or the position of the
/// first fault.
pub open spec fn object_of(s: Seq<char>) -> Result<Seq<(Seq<char>, ValueView)>, int> {
    let b = skip_json_ws(s, 0);
    if !(0 <= b < s.len() && s[b] == '{') {
        Err(b)
    } else {
        match members_rest(s, b + 1, Seq::empty()) {
            Err(p) => Err(p),
            Ok((m, e)) => if skip_json_ws(s, e) != s.len() {
                Err(skip_json_ws(s, e))
            } else {
                Ok(m)
            },
        }
    }
}

/// The message of a fault at a position.
pub open spec fn fault_msg(p: int) -> Seq<char> {
    "JSON inválido na posição "@ + decimal(p as nat)
}

fn skip_ws_exec(s: &Vec<char>, i: usize) -> (k: usize)
    requires
        i <= s@.len(),
    ensures
        k == skip_json_ws(s@, i as int),
        i <= k <= s@.len(),
{
    let mut k = i;
    while k < s.len() && (s[k] == ' ' || s[k] == '\t' || s[k] == '\n' || s[k] == '\r')
        invariant
            i <= k <= s@.len(),
            skip_json_ws(s@, i as int) == skip_json_ws(s@, k as int),
        decreases s.len() - k,
    {
        k = k + 1;
    }
    k
}

fn hex_val_exec(c: char) -> (v: i32)
    ensures
        v == hex_val(c),
{
    if '0' <= c && c <= '9' {
        (c as u32 - '0' as u32) as i32
    } else if 'a' <= c && c <= 'f' {
        (c as u32 - 'a' as u32 + 10) as i32
    } else if 'A' <= c && c <= 'F' {
        (c as u32 - 'A' as u32 + 10) as i32
    } else {
        -1
    }
}

fn hex4_exec(s: &Vec<char>, i: usize) -> (r: Option<u32>)
    ensures
        match hex4_at(s@, i as int) {
            Some(cp) => r == Some(cp as u32) && 0 <= cp < 0x10000,
            None => r is None,
        },
{
    if i > s.len() || s.len() - i < 4 {
        return None;
    }
    let a = hex_val_exec(s[i]);
    let b = hex_val_exec(s[i + 1]);
    let c = hex_val_exec(s[i + 2]);
    let d = hex_val_exec(s[i + 3]);
    if a < 0 || b < 0 || c < 0 || d < 0 {
        return None;
    }
    Some((a as u32) * 4096 + (b as u32) * 256 + (c as u32) * 16 + (d as u32))
}

fn string_exec(s: &Vec<char>, i: usize) -> (r: Result<(Vec<char>, usize), usize>)
    requires
        i <= s@.len(),
    ensures
        match string_at(s@, i as int) {
            Ok((t, j)) => r matches Ok((v, k)) && v@ == t && k == j,
            Err(p) => r == Err::<(Vec<char>, usize), usize>(p as usize) && 0 <= p <= s@.len(),
        },
{
    if !(i < s.len() && s[i] == '"') {
        return Err(i);
    }
    let mut acc: Vec<char> = Vec::new();
    let mut k = i + 1;
    while k < s.len()
        invariant
            i < k <= s@.len(),
            string_at(s@, i as int) == string_rest(s@, k as int, acc@),
        decreases s.len() - k,
    {
        let c = s[k];
        if c == '"' {
            return Ok((acc, k + 1));
        } else if c == '\\' {
            if k + 1 >= s.len() {
                return Err(k);
            }
            let e = s[k + 1];
            if e == 'u' {
                match hex4_exec(s, k + 2) {
                    Some(cp) => {
                        if 0xD800 <= cp && cp <= 0xDFFF {
                            return Err(k);
                        }
                        let ch = char_of(cp);
                        acc.push(ch);
                        k = k + 6;
                    },
                    None => {
                        return Err(k);
                    },
                }
            } else {
                let d = if e == '"' {
                    '"'
                } else if e == '\\' {
                    '\\'
                } else if e == '/' {
                    '/'
                } else if e == 'b' {
                    '\u{8}'
                } else if e == 'f' {
                    '\u{c}'
                } else if e == 'n' {
                    '\n'
                } else if e == 'r' {
                    '\r'
                } else if e == 't' {
                    '\t'
                } else {
                    return Err(k);
                };
                acc.push(d);
                k = k + 2;
            }
        } else if (c as u32) < 0x20 {
            return Err(k);
        } else {
            acc.push(c);
            k = k + 1;
        }
    }
    Err(k)
}

/// Calls `char::from_u32`; claims, as its documentation says, that a code
/// point below `0x110000` outside the surrogate range is a `char`, the one
/// with that number.
#[verifier::external_body]
fn char_of(cp: u32) -> (c: char)
    requires
        cp < 0x110000,
        !(0xD800 <= cp && cp <= 0xDFFF),
    ensures
        c == cp as char,
{
    char::from_u32(cp).unwrap_or('\0')
}

proof fn lemma_digits_val_mono(s: Seq<char>, i: int, j: int, k: int)
    requires
        i <= j <= k,
        forall|m: int| i <= m < k ==> is_digit(#[trigger] s[m]),
    ensures
        0 <= digits_val(s, i, j) <= digits_val(s, i, k),
    decreases k - j,
{
    if j < k {
        lemma_digits_val_mono(s, i, j, k - 1);
        lemma_digits_val_nonneg(s, i, k - 1);
        assert(is_digit(s[k - 1]));
    } else {
        lemma_digits_val_nonneg(s, i, j);
    }
}

proof fn lemma_digits_val_nonneg(s: Seq<char>, i: int, j: int)
    requires
        forall|m: int| i <= m < j ==> is_digit(#[trigger] s[m]),
    ensures
        digits_val(s, i, j) >= 0,
    decreases j - i,
{
    if j > i {
        lemma_digits_val_nonneg(s, i, j - 1);
        assert(is_digit(s[j - 1]));
    }
}

proof fn lemma_digits_end(s: Seq<char>, i: int)
    requires
        0 <= i <= s.len(),
    ensures
        i <= digits_end(s, i) <= s.len(),
        forall|m: int| i <= m < digits_end(s, i) ==> is_digit(#[trigger] s[m]),
        digits_end(s, i) < s.len() ==> !is_digit(s[digits_end(s, i)]),
    decreases s.len() - i,
{
    if i < s.len() && is_digit(s[i]) {
        lemma_digits_end(s, i + 1);
    }
}

fn number_exec(s: &Vec<char>, i: usize) -> (r: Result<(i64, usize), usize>)
    requires
        i <= s@.len(),
    ensures
        match number_at(s@, i as int) {
            Ok((n, j)) => r == Ok::<(i64, usize), usize>((n, j as usize)) && i <= j <= s@.len(),
            Err(p) => r == Err::<(i64, usize), usize>(p as usize) && 0 <= p <= s@.len(),
        },
{
    let neg = i < s.len() && s[i] == '-';
    let d = if neg {
        i + 1
    } else {
        i
    };
    let mut e = d;
    let mut m: u64 = 0;
    let mut overflow = false;
    proof {
        lemma_digits_end(s@, d as int);
    }
    while e < s.len() && '0' <= s[e] && s[e] <= '9'
        invariant
            d <= e <= s@.len(),
            forall|k: int| d <= k < e ==> is_digit(#[trigger] s@[k]),
            digits_end(s@, d as int) == digits_end(s@, e as int),
            !overflow ==> m == digits_val(s@, d as int, e as int),
            overflow ==> digits_val(s@, d as int, e as int) > u64::MAX,
        decreases s.len() - e,
    {
        let dv = (s[e] as u32 - '0' as u32) as u64;
        proof {
            lemma_digits_val_nonneg(s@, d as int, e as int);
        }
        if !overflow {
            match m.checked_mul(10) {
                Some(t) => match t.checked_add(dv) {
                    Some(u) => {
                        m = u;
                    },
                    None => {
                        overflow = true;
                    },
                },
                None => {
                    overflow = true;
                },
            }
        } else {
            proof {
                assert(digits_val(s@, d as int, e + 1) == digits_val(s@, d as int, e as int) * 10 + dv);
                assert(digits_val(s@, d as int, e as int) * 10 >= digits_val(s@, d as int, e as int)) by (nonlinear_arith)
                    requires digits_val(s@, d as int, e as int) >= 0;
            }
        }
        e = e + 1;
    }
    if e == d {
        return Err(i);
    }
    if e - d > 1 && s[d] == '0' {
        return Err(i);
    }
    if e < s.len() && (s[e] == '.' || s[e] == 'e' || s[e] == 'E') {
        return Err(i);
    }
    if overflow {
        return Err(i);
    }
    if neg {
        if m > 0x8000_0000_0000_0000 {
            return Err(i);
        }
        let v: i64 = if m == 0x8000_0000_0000_0000 {
            i64::MIN
        } else {
            -(m as i64)
        };
        Ok((v, e))
    } else {
        if m > 0x7fff_ffff_ffff_ffff {
            return Err(i);
        }
        Ok((m as i64, e))
    }
}

fn word_exec(s: &Vec<char>, i: usize, w: &str) -> (b: bool)
    ensures
        b == word_at(s@, i as int, w@),
{
    let wv = chars_of(w);
    let r = crate::text::matches_at(s, i, &wv);
    r
}

fn scalar_exec(s: &Vec<char>, i: usize) -> (r: Result<(JsonScalar, usize), usize>)
    requires
        i <= s@.len(),
    ensures
        match scalar_at(s@, i as int) {
            Ok((v, j)) => r matches Ok((x, k)) && scalar_view(x) == v && k == j && j <= s@.len(),
            Err(p) => r == Err::<(JsonScalar, usize), usize>(p as usize) && 0 <= p <= s@.len(),
        },
{
    if i >= s.len() {
        return Err(i);
    }
    let c = s[i];
    if c == '"' {
        match string_exec(s, i) {
            Ok((t, j)) => {
                proof {
                    lemma_string_end(s@, i as int);
                }
                Ok((JsonScalar::Str(string_from(&t)), j))
            },
            Err(p) => Err(p),
        }
    } else if c == '-' || ('0' <= c && c <= '9') {
        match number_exec(s, i) {
            Ok((n, j)) => Ok((JsonScalar::Int(n), j)),
            Err(p) => Err(p),
        }
    } else {
        proof {
            reveal_strlit("true");
            reveal_strlit("false");
            reveal_strlit("null");
            assert("true"@ =~= seq!['t', 'r', 'u', 'e']);
            assert("false"@ =~= seq!['f', 'a', 'l', 's', 'e']);
            assert("null"@ =~= seq!['n', 'u', 'l', 'l']);
        }
        if word_exec(s, i, "true") {
            Ok((JsonScalar::Bool(true), i + 4))
        } else if word_exec(s, i, "false") {
            Ok((JsonScalar::Bool(false), i + 5))
        } else if word_exec(s, i, "null") {
            Ok((JsonScalar::Null, i + 4))
        } else {
            Err(i)
        }
    }
}

proof fn lemma_string_rest_end(s: Seq<char>, i: int, acc: Seq<char>)
    ensures
        string_rest(s, i, acc) matches Ok((t, j)) ==> i < j <= s.len(),
        string_rest(s, i, acc) matches Err(p) ==> p == i || (i <= p <= s.len()),
    decreases s.len() - i,
{
    if 0 <= i < s.len() && s[i] != '"' {
        if s[i] == '\\' {
            if i + 1 < s.len() {
                if s[i + 1] == 'u' {
                    match hex4_at(s, i + 2) {
                        Some(cp) => {
                            if !(0xD800 <= cp && cp <= 0xDFFF) {
                                lemma_string_rest_end(s, i + 6, acc.push(cp as char));
                            }
                        },
                        None => {},
                    }
                } else {
                    match simple_escape(s[i + 1]) {
                        Some(c) => lemma_string_rest_end(s, i + 2, acc.push(c)),
                        None => {},
                    }
                }
            }
        } else if !((s[i] as u32) < 0x20) {
            lemma_string_rest_end(s, i + 1, acc.push(s[i]));
        }
    }
}

proof fn lemma_string_end(s: Seq<char>, i: int)
    ensures
        string_at(s, i) matches Ok((t, j)) ==> i < j <= s.len(),
{
    if 0 <= i < s.len() && s[i] == '"' {
        lemma_string_rest_end(s, i + 1, Seq::empty());
    }
}

fn array_exec(s: &Vec<char>, i: usize) -> (r: Result<(Vec<JsonScalar>, usize), usize>)
    requires
        i <= s@.len(),
    ensures
        match array_rest(s@, i as int, Seq::empty()) {
            Ok((a, j)) => r matches Ok((v, k)) && scalars_view(v@) == a && k == j && j <= s@.len(),
            Err(p) => r == Err::<(Vec<JsonScalar>, usize), usize>(p as usize) && 0 <= p <= s@.len(),
        },
{
    let mut acc: Vec<JsonScalar> = Vec::new();
    let mut pos = i;
    assert(scalars_view(acc@) =~= Seq::<ScalarView>::empty());
    loop
        invariant
            pos <= s@.len(),
            array_rest(s@, i as int, Seq::empty()) == array_rest(s@, pos as int, scalars_view(acc@)),
        decreases s@.len() - pos,
    {
        let k = skip_ws_exec(s, pos);
        if k >= s.len() {
            return Err(k);
        }
        if s[k] == ']' {
            return Ok((acc, k + 1));
        }
        let start = if s[k] == ',' && acc.len() > 0 {
            skip_ws_exec(s, k + 1)
        } else if acc.len() == 0 && s[k] != ',' {
            k
        } else {
            return Err(k);
        };
        match scalar_exec(s, start) {
            Ok((v, j)) => {
                if j <= pos || j > s.len() {
                    return Err(start);
                }
                let ghost before = scalars_view(acc@);
                acc.push(v);
                assert(scalars_view(acc@) =~= before.push(scalar_view(v)));
                pos = j;
            },
            Err(p) => {
                return Err(p);
            },
        }
    }
}

fn value_exec(s: &Vec<char>, i: usize) -> (r: Result<(JsonValue, usize), usize>)
    requires
        i <= s@.len(),
    ensures
        match value_at(s@, i as int) {
            Ok((v, j)) => r matches Ok((x, k)) && value_view(x) == v && k == j && j <= s@.len(),
            Err(p) => r == Err::<(JsonValue, usize), usize>(p as usize) && 0 <= p <= s@.len(),
        },
{
    if i < s.len() && s[i] == '[' {
        match array_exec(s, i + 1) {
            Ok((a, j)) => Ok((JsonValue::Array(a), j)),
            Err(p) => Err(p),
        }
    } else {
        match scalar_exec(s, i) {
            Ok((v, j)) => Ok((JsonValue::Scalar(v), j)),
            Err(p) => Err(p),
        }
    }
}

fn member_exec(s: &Vec<char>, i: usize) -> (r: Result<((String, JsonValue), usize), usize>)
    requires
        i <= s@.len(),
    ensures
        match member_at(s@, i as int) {
            Ok((m, j)) => r matches Ok((x, k)) && x.0@ == m.0 && value_view(x.1) == m.1 && k == j && j
                <= s@.len(),
            Err(p) => r == Err::<((String, JsonValue), usize), usize>(p as usize) && 0 <= p <= s@.len(),
        },
{
    match string_exec(s, i) {
        Err(p) => Err(p),
        Ok((k, j)) => {
            proof {
                lemma_string_end(s@, i as int);
            }
            let c = skip_ws_exec(s, j);
            if !(c < s.len() && s[c] == ':') {
                return Err(c);
            }
            let v = skip_ws_exec(s, c + 1);
            match value_exec(s, v) {
                Ok((val, e)) => Ok(((string_from(&k), val), e)),
                Err(p) => Err(p),
            }
        },
    }
}

fn member_present(acc: &Vec<(String, JsonValue)>, key: &String) -> (b: bool)
    ensures
        b == has_member(
            Seq::new(acc@.len(), |i: int| (acc@[i].0@, value_view(acc@[i].1))),
            key@,
        ),
{
    let ghost mv = Seq::new(acc@.len(), |i: int| (acc@[i].0@, value_view(acc@[i].1)));
    let mut i: usize = 0;
    while i < acc.len()
        invariant
            i <= acc@.len(),
            mv == Seq::new(acc@.len(), |i: int| (acc@[i].0@, value_view(acc@[i].1))),
            forall|j: int| 0 <= j < i ==> mv[j].0 != key@,
        decreases acc.len() - i,
    {
        if crate::text::str_eq(acc[i].0.as_str(), key.as_str()) {
            assert(mv[i as int].0 == key@);
            return true;
        }
        i = i + 1;
    }
    false
}

fn members_exec(s: &Vec<char>, b: usize) -> (r: Result<(Vec<(String, JsonValue)>, usize), usize>)
    requires
        b <= s@.len(),
    ensures
        match members_rest(s@, b as int, Seq::empty()) {
            Ok((m, e)) => r matches Ok((v, k)) && Seq::new(
                v@.len(),
                |i: int| (v@[i].0@, value_view(v@[i].1)),
            ) == m && k == e && e <= s@.len(),
            Err(p) => r == Err::<(Vec<(String, JsonValue)>, usize), usize>(p as usize) && 0 <= p
                <= s@.len(),
        },
{
    let mut acc: Vec<(String, JsonValue)> = Vec::new();
    let mut pos = b;
    assert(Seq::new(acc@.len(), |i: int| (acc@[i].0@, value_view(acc@[i].1))) =~= Seq::<
        (Seq<char>, ValueView),
    >::empty());
    loop
        invariant
            pos <= s@.len(),
            members_rest(s@, b as int, Seq::empty()) == members_rest(
                s@,
                pos as int,
                Seq::new(acc@.len(), |i: int| (acc@[i].0@, value_view(acc@[i].1))),
            ),
        decreases s@.len() - pos,
    {
        let ghost av = Seq::new(acc@.len(), |i: int| (acc@[i].0@, value_view(acc@[i].1)));
        let k = skip_ws_exec(s, pos);
        if k >= s.len() {
            return Err(k);
        }
        if s[k] == '}' {
            return Ok((acc, k + 1));
        }
        if s[k] == ',' && acc.len() == 0 {
            return Err(k);
        }
        if s[k] != ',' && acc.len() > 0 {
            return Err(k);
        }
        let start = if s[k] == ',' {
            skip_ws_exec(s, k + 1)
        } else {
            k
        };
        match member_exec(s, start) {
            Ok((m, j)) => {
                if j <= pos || j > s.len() {
                    return Err(start);
                }
                if member_present(&acc, &m.0) {
                    return Err(start);
                }
                let ghost mv = (m.0@, value_view(m.1));
                acc.push(m);
                assert(Seq::new(acc@.len(), |i: int| (acc@[i].0@, value_view(acc@[i].1))) =~= av.push(
                    mv,
                ));
                pos = j;
            },
            Err(p) => {
                return Err(p);
            },
        }
    }
}

/// Reads one line holding a JSON object.
pub fn parse_object(line: &str) -> (r: Result<JsonObject, JsonError>)
    ensures
        match object_of(line@) {
            Ok(m) => r matches Ok(o) && object_view(o) == m,
            Err(p) => r matches Err(e) && e.msg@ == fault_msg(p),
        },
{
    let s = chars_of(line);
    let b = skip_ws_exec(&s, 0);
    let res: Result<Vec<(String, JsonValue)>, usize> = if !(b < s.len() && s[b] == '{') {
        Err(b)
    } else {
        match members_exec(&s, b + 1) {
            Err(p) => Err(p),
            Ok((m, e)) => {
                let t = skip_ws_exec(&s, e);
                if t != s.len() {
                    Err(t)
                } else {
                    Ok(m)
                }
            },
        }
    };
    match res {
        Ok(members) => {
            let o = JsonObject { members };
            Ok(o)
        },
        Err(p) => {
            let mut msg: Vec<char> = Vec::new();
            push_str_chars(&mut msg, "JSON inválido na posição ");
            push_decimal(&mut msg, p as u64);
            Err(JsonError { msg: string_from(&msg) })
        },
    }
}

/// The value of the first member with the key.
pub open spec fn member_value(m: Seq<(Seq<char>, ValueView)>, k: Seq<char>) -> Option<ValueView>
    decreases m.len(),
{
    if m.len() == 0 {
        None
    } else if m[0].0 == k {
        Some(m[0].1)
    } else {
        member_value(m.drop_first(), k)
    }
}

/// The text a value holds, if it is a text.
pub open spec fn value_str(v: ValueView) -> Option<Seq<char>> {
    match v {
        ValueView::Scalar(ScalarView::Str(t)) => Some(t),
        _ => None,
    }
}

/// The integer a value holds, if it is an integer.
pub open spec fn value_int(v: ValueView) -> Option<i64> {
    match v {
        ValueView::Scalar(ScalarView::Int(n)) => Some(n),
        _ => None,
    }
}

/// The texts a list holds, if it is a list of texts only.
pub open spec fn value_str_array(v: ValueView) -> Option<Seq<Seq<char>>> {
    match v {
        ValueView::Array(a) => if forall|i: int| 0 <= i < a.len() ==> (#[trigger] a[i]) is Str {
            Some(Seq::new(a.len(), |i: int| a[i]->Str_0))
        } else {
            None
        },
        _ => None,
    }
}

impl JsonObject {
    /// The value of the member with the key.
    pub fn get(&self, key: &str) -> (r: Option<&JsonValue>)
        ensures
            match member_value(object_view(*self), key@) {
                Some(v) => r matches Some(x) && value_view(*x) == v,
                None => r is None,
            },
    {
        let ghost ov = object_view(*self);
        let mut i: usize = 0;
        assert(ov.skip(0) =~= ov);
        while i < self.members.len()
            invariant
                i <= self.members@.len(),
                ov == object_view(*self),
                member_value(ov, key@) == member_value(ov.skip(i as int), key@),
            decreases self.members.len() - i,
        {
            assert(ov.skip(i as int)[0] == ov[i as int]);
            assert(ov.skip(i as int).drop_first() =~= ov.skip(i + 1));
            if crate::text::str_eq(self.members[i].0.as_str(), key) {
                return Some(&self.members[i].1);
            }
            i = i + 1;
        }
        assert(ov.skip(i as int).len() == 0);
        None
    }
}

impl JsonValue {
    /// The text held, if this is a text.
    pub fn as_str(&self) -> (r: Option<&str>)
        ensures
            match value_str(value_view(*self)) {
                Some(t) => r matches Some(x) && x@ == t,
                None => r is None,
            },
    {
        match self {
            JsonValue::Scalar(JsonScalar::Str(t)) => Some(t.as_str()),
            _ => None,
        }
    }

    /// The integer held, if this is an integer.
    pub fn as_int(&self) -> (r: Option<i64>)
        ensures
            r == value_int(value_view(*self)),
    {
        match self {
            JsonValue::Scalar(JsonScalar::Int(n)) => Some(*n),
            _ => None,
        }
    }

    /// The texts held, if this is a list of texts.
    pub fn as_str_array(&self) -> (r: Option<Vec<String>>)
        ensures
            match value_str_array(value_view(*self)) {
                Some(ts) => r matches Some(v) && crate::text::string_rows(v@) == ts,
                None => r is None,
            },
    {
        match self {
            JsonValue::Array(a) => {
                let ghost av = scalars_view(a@);
                assert(value_view(*self) == ValueView::Array(av));
                let mut out: Vec<String> = Vec::new();
                let mut i: usize = 0;
                while i < a.len()
                    invariant
                        i <= a@.len(),
                        av == scalars_view(a@),
                        value_view(*self) == ValueView::Array(av),
                        out@.len() == i,
                        forall|j: int| 0 <= j < i ==> (#[trigger] av[j]) is Str && out@[j]@ == av[j]->Str_0,
                    decreases a.len() - i,
                {
                    assert(av[i as int] == scalar_view(a@[i as int]));
                    match &a[i] {
                        JsonScalar::Str(t) => {
                            out.push(t.clone());
                        },
                        _ => {
                            assert(!(av[i as int] is Str));
                            assert(!(forall|j: int| 0 <= j < av.len() ==> (#[trigger] av[j]) is Str));
                            assert(value_view(*self) == ValueView::Array(av));
                            return None;
                        },
                    }
                    i = i + 1;
                }
                assert(crate::text::string_rows(out@) =~= Seq::new(av.len(), |i: int| av[i]->Str_0));
                Some(out)
            },
            _ => None,
        }
    }
}

} // verus!
