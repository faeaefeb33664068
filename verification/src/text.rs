//! Character-sequence vocabulary shared by every module: the conversions
//! between `str`/`String` and `Vec<char>`, whitespace trimming, prefix tests,
//! line splitting and the decimal and hexadecimal renderings that the
//! catalogue formats use.
use vstd::prelude::*;

verus! {

/// The characters of a string slice, in order.
pub fn chars_of(s: &str) -> (v: Vec<char>)
    ensures
        v@ == s@,
{
    broadcast use vstd::string::axiom_spec_iter;

    let mut v: Vec<char> = Vec::new();
    for c in it: s.chars()
        invariant
            it.seq() == s@,
            v@.len() == it.index(),
            forall|i: int| 0 <= i < v@.len() ==> v@[i] == it.seq()[i],
    {
        v.push(c);
    }
    assert(v@ =~= s@);
    v
}

/// A `String` holding exactly the given characters.
///
/// Calls `FromIterator<&char> for String`; claims that the result's characters
/// are the slice's characters, in order.
#[verifier::external_body]
pub fn string_from(v: &[char]) -> (s: String)
    ensures
        s@ == v@,
{
    v.iter().collect()
}

/// Unicode `White_Space`, the property `char::is_whitespace` tests.
pub open spec fn is_ws(c: char) -> bool {
    ||| ('\u{9}' <= c && c <= '\u{d}')
    ||| c == ' '
    ||| c == '\u{85}'
    ||| c == '\u{a0}'
    ||| c == '\u{1680}'
    ||| ('\u{2000}' <= c && c <= '\u{200a}')
    ||| c == '\u{2028}'
    ||| c == '\u{2029}'
    ||| c == '\u{202f}'
    ||| c == '\u{205f}'
    ||| c == '\u{3000}'
}

pub fn is_whitespace(c: char) -> (b: bool)
    ensures
        b == is_ws(c),
{
    ('\u{9}' <= c && c <= '\u{d}') || c == ' ' || c == '\u{85}' || c == '\u{a0}' || c
        == '\u{1680}' || ('\u{2000}' <= c && c <= '\u{200a}') || c == '\u{2028}' || c
        == '\u{2029}' || c == '\u{202f}' || c == '\u{205f}' || c == '\u{3000}'
}

/// `s` without its leading whitespace.
pub open spec fn trim_start(s: Seq<char>) -> Seq<char>
    decreases s.len(),
{
    if s.len() > 0 && is_ws(s[0]) {
        trim_start(s.drop_first())
    } else {
        s
    }
}

/// `s` without its trailing whitespace.
pub open spec fn trim_end(s: Seq<char>) -> Seq<char>
    decreases s.len(),
{
    if s.len() > 0 && is_ws(s.last()) {
        trim_end(s.drop_last())
    } else {
        s
    }
}

/// `s` without leading and trailing whitespace (`str::trim`).
pub open spec fn trim(s: Seq<char>) -> Seq<char> {
    trim_end(trim_start(s))
}

/// Every character of `s` is whitespace.
pub open spec fn all_ws(s: Seq<char>) -> bool {
    forall|i: int| 0 <= i < s.len() ==> is_ws(#[trigger] s[i])
}

pub proof fn lemma_trim_start_suffix(s: Seq<char>)
    ensures
        exists|k: int|
            0 <= k <= s.len() && trim_start(s) == s.subrange(k, s.len() as int) && all_ws(
                s.subrange(0, k),
            ) && (k < s.len() ==> !is_ws(s[k])),
    decreases s.len(),
{
    if s.len() > 0 && is_ws(s[0]) {
        lemma_trim_start_suffix(s.drop_first());
        let k = choose|k: int|
            0 <= k <= s.drop_first().len() && trim_start(s.drop_first())
                == s.drop_first().subrange(k, s.drop_first().len() as int) && all_ws(
                s.drop_first().subrange(0, k),
            ) && (k < s.drop_first().len() ==> !is_ws(s.drop_first()[k]));
        assert(s.drop_first().subrange(k, s.drop_first().len() as int) =~= s.subrange(
            k + 1,
            s.len() as int,
        ));
        assert forall|i: int| 0 <= i < k + 1 implies is_ws(#[trigger] s.subrange(0, k + 1)[i]) by {
            if i > 0 {
                assert(s.subrange(0, k + 1)[i] == s.drop_first().subrange(0, k)[i - 1]);
            }
        }
    } else {
        assert(s.subrange(0, s.len() as int) =~= s);
        assert(s.subrange(0, 0) =~= Seq::<char>::empty());
    }
}

/// Index of the first non-whitespace character at or after `i`.
pub fn skip_ws(s: &Vec<char>, i: usize) -> (k: usize)
    requires
        i <= s.len(),
    ensures
        i <= k <= s.len(),
        trim_start(s@.subrange(i as int, s.len() as int)) == s@.subrange(k as int, s.len() as int),
        k < s.len() ==> !is_ws(s@[k as int]),
        forall|j: int| i <= j < k ==> is_ws(#[trigger] s@[j]),
{
    let mut k = i;
    while k < s.len() && is_whitespace(s[k])
        invariant
            i <= k <= s.len(),
            trim_start(s@.subrange(i as int, s.len() as int)) == trim_start(
                s@.subrange(k as int, s.len() as int),
            ),
            forall|j: int| i <= j < k ==> is_ws(#[trigger] s@[j]),
        decreases s.len() - k,
    {
        assert(s@.subrange(k as int, s.len() as int).drop_first() =~= s@.subrange(
            k + 1,
            s.len() as int,
        ));
        k = k + 1;
    }
    k
}

/// Index one past the last non-whitespace character before `j`.
pub fn skip_ws_back(s: &Vec<char>, i: usize, j: usize) -> (k: usize)
    requires
        i <= j <= s.len(),
    ensures
        i <= k <= j,
        trim_end(s@.subrange(i as int, j as int)) == s@.subrange(i as int, k as int),
        forall|m: int| k <= m < j ==> is_ws(#[trigger] s@[m]),
{
    let mut k = j;
    while k > i && is_whitespace(s[k - 1])
        invariant
            i <= k <= j <= s.len(),
            trim_end(s@.subrange(i as int, j as int)) == trim_end(s@.subrange(i as int, k as int)),
            forall|m: int| k <= m < j ==> is_ws(#[trigger] s@[m]),
        decreases k,
    {
        assert(s@.subrange(i as int, k as int).drop_last() =~= s@.subrange(i as int, k - 1));
        k = k - 1;
    }
    k
}

/// Bounds `(a, b)` of `trim(s[i..j])` inside `s`.
pub fn trim_bounds(s: &Vec<char>, i: usize, j: usize) -> (r: (usize, usize))
    requires
        i <= j <= s.len(),
    ensures
        i <= r.0 <= r.1 <= j,
        trim(s@.subrange(i as int, j as int)) == s@.subrange(r.0 as int, r.1 as int),
{
    let a = skip_ws_sub(s, i, j);
    let b = skip_ws_back(s, a, j);
    (a, b)
}

/// Like [`skip_ws`], bounded by `j`.
pub fn skip_ws_sub(s: &Vec<char>, i: usize, j: usize) -> (k: usize)
    requires
        i <= j <= s.len(),
    ensures
        i <= k <= j,
        trim_start(s@.subrange(i as int, j as int)) == s@.subrange(k as int, j as int),
        k < j ==> !is_ws(s@[k as int]),
        forall|m: int| i <= m < k ==> is_ws(#[trigger] s@[m]),
{
    let mut k = i;
    while k < j && is_whitespace(s[k])
        invariant
            i <= k <= j <= s.len(),
            trim_start(s@.subrange(i as int, j as int)) == trim_start(s@.subrange(k as int, j as int)),
            forall|m: int| i <= m < k ==> is_ws(#[trigger] s@[m]),
        decreases j - k,
    {
        assert(s@.subrange(k as int, j as int).drop_first() =~= s@.subrange(k + 1, j as int));
        k = k + 1;
    }
    k
}

/// `trim(s[i..j])` as a new vector.
pub fn trimmed(s: &Vec<char>, i: usize, j: usize) -> (t: Vec<char>)
    requires
        i <= j <= s.len(),
    ensures
        t@ == trim(s@.subrange(i as int, j as int)),
{
    let (a, b) = trim_bounds(s, i, j);
    slice_vec(s, a, b)
}

/// `s[i..j]` as a new vector.
pub fn slice_vec(s: &Vec<char>, i: usize, j: usize) -> (t: Vec<char>)
    requires
        i <= j <= s.len(),
    ensures
        t@ == s@.subrange(i as int, j as int),
{
    let mut t: Vec<char> = Vec::new();
    let mut k = i;
    while k < j
        invariant
            i <= k <= j <= s.len(),
            t@ == s@.subrange(i as int, k as int),
        decreases j - k,
    {
        t.push(s[k]);
        assert(t@ =~= s@.subrange(i as int, k + 1));
        k = k + 1;
    }
    t
}

/// `p` occurs in `s` at position `i`.
pub open spec fn occurs_at(s: Seq<char>, i: int, p: Seq<char>) -> bool {
    0 <= i && i + p.len() <= s.len() && s.subrange(i, i + p.len()) == p
}

/// `s` starts with `p` (`str::starts_with`).
pub open spec fn has_prefix(s: Seq<char>, p: Seq<char>) -> bool {
    occurs_at(s, 0, p)
}

/// `s` ends with `p` (`str::ends_with`).
pub open spec fn has_suffix(s: Seq<char>, p: Seq<char>) -> bool {
    p.len() <= s.len() && s.subrange(s.len() - p.len(), s.len() as int) == p
}

/// `s` contains `p` somewhere (`str::contains`).
pub open spec fn contains_seq(s: Seq<char>, p: Seq<char>) -> bool {
    exists|i: int| occurs_at(s, i, p)
}

/// Does `p` occur in `s` at position `i`?
pub fn matches_at(s: &Vec<char>, i: usize, p: &Vec<char>) -> (b: bool)
    ensures
        b == occurs_at(s@, i as int, p@),
{
    if i > s.len() || p.len() > s.len() - i {
        return false;
    }
    let mut k: usize = 0;
    while k < p.len()
        invariant
            i + p.len() <= s.len(),
            k <= p.len(),
            forall|m: int| 0 <= m < k ==> s@[i + m] == p@[m],
        decreases p.len() - k,
    {
        if s[i + k] != p[k] {
            assert(s@.subrange(i as int, i + p.len())[k as int] != p@[k as int]);
            return false;
        }
        k = k + 1;
    }
    assert(s@.subrange(i as int, i + p.len()) =~= p@);
    true
}

/// Does `p` occur anywhere in `s`?
pub fn contains_vec(s: &Vec<char>, p: &Vec<char>) -> (b: bool)
    ensures
        b == contains_seq(s@, p@),
{
    let mut i: usize = 0;
    while i < s.len()
        invariant
            i <= s.len(),
            forall|j: int| 0 <= j < i ==> !occurs_at(s@, j, p@),
        decreases s.len() - i,
    {
        if matches_at(s, i, p) {
            return true;
        }
        i = i + 1;
    }
    if matches_at(s, i, p) {
        return true;
    }
    assert forall|j: int| !occurs_at(s@, j, p@) by {
        if 0 <= j && j <= i {
        }
    }
    false
}

/// Equality of two character vectors.
pub fn vec_eq(a: &Vec<char>, b: &Vec<char>) -> (r: bool)
    ensures
        r == (a@ == b@),
{
    if a.len() != b.len() {
        return false;
    }
    let mut i: usize = 0;
    while i < a.len()
        invariant
            a.len() == b.len(),
            i <= a.len(),
            forall|j: int| 0 <= j < i ==> a@[j] == b@[j],
        decreases a.len() - i,
    {
        if a[i] != b[i] {
            return false;
        }
        i = i + 1;
    }
    assert(a@ =~= b@);
    true
}

/// Equality of two string slices.
pub fn str_eq(a: &str, b: &str) -> (r: bool)
    ensures
        r == (a@ == b@),
{
    let va = chars_of(a);
    let vb = chars_of(b);
    vec_eq(&va, &vb)
}

/// Lexicographic order on character sequences (the order of `str::cmp`,
/// which compares code points).
pub open spec fn seq_lt(a: Seq<char>, b: Seq<char>) -> bool
    decreases a.len(),
{
    if a.len() == 0 {
        b.len() > 0
    } else if b.len() == 0 {
        false
    } else if a[0] != b[0] {
        a[0] < b[0]
    } else {
        seq_lt(a.drop_first(), b.drop_first())
    }
}

/// `seq_lt` is transitive.
pub proof fn lemma_seq_lt_trans(a: Seq<char>, b: Seq<char>, c: Seq<char>)
    requires
        seq_lt(a, b),
        seq_lt(b, c),
    ensures
        seq_lt(a, c),
    decreases a.len(),
{
    if a.len() > 0 && b.len() > 0 && c.len() > 0 && a[0] == b[0] && b[0] == c[0] {
        lemma_seq_lt_trans(a.drop_first(), b.drop_first(), c.drop_first());
    }
}

/// `seq_lt` is irreflexive.
pub proof fn lemma_seq_lt_irrefl_eq(a: Seq<char>, b: Seq<char>)
    requires
        a == b,
    ensures
        !seq_lt(a, b),
    decreases a.len(),
{
    if a.len() > 0 {
        lemma_seq_lt_irrefl_eq(a.drop_first(), b.drop_first());
    }
}

/// `seq_lt` is total.
pub proof fn lemma_seq_lt_total(a: Seq<char>, b: Seq<char>)
    ensures
        seq_lt(a, b) || seq_lt(b, a) || a == b,
    decreases a.len(),
{
    if a.len() > 0 && b.len() > 0 && a[0] == b[0] {
        lemma_seq_lt_total(a.drop_first(), b.drop_first());
        if a.drop_first() == b.drop_first() {
            assert(a =~= seq![a[0]] + a.drop_first());
            assert(b =~= seq![b[0]] + b.drop_first());
        }
    } else if a.len() == 0 && b.len() == 0 {
        assert(a =~= b);
    }
}

/// `a <= b` in the order of `str::cmp`.
pub open spec fn seq_le(a: Seq<char>, b: Seq<char>) -> bool {
    !seq_lt(b, a)
}

/// `seq_le` is a total order.
pub proof fn lemma_seq_le_total_ordering()
    ensures
        vstd::relations::total_ordering(|a: Seq<char>, b: Seq<char>| seq_le(a, b)),
{
    let leq = |a: Seq<char>, b: Seq<char>| seq_le(a, b);
    assert forall|a: Seq<char>| #[trigger] leq(a, a) by {
        lemma_seq_lt_irrefl_eq(a, a);
    }
    assert forall|a: Seq<char>, b: Seq<char>| #[trigger] leq(a, b) && #[trigger] leq(b, a) implies a
        == b by {
        lemma_seq_lt_total(a, b);
    }
    assert forall|a: Seq<char>, b: Seq<char>, c: Seq<char>| #[trigger] leq(a, b) && #[trigger] leq(
        b,
        c,
    ) implies leq(a, c) by {
        lemma_seq_lt_total(a, b);
        lemma_seq_lt_total(b, c);
        if seq_lt(c, a) {
            if seq_lt(b, a) {
            } else if a == b {
            } else {
                lemma_seq_lt_trans(c, a, b);
            }
        }
    }
    assert forall|a: Seq<char>, b: Seq<char>| #[trigger] leq(a, b) || #[trigger] leq(b, a) by {
        lemma_seq_lt_total(a, b);
        if seq_lt(a, b) && seq_lt(b, a) {
            lemma_seq_lt_trans(a, b, a);
            lemma_seq_lt_irrefl_eq(a, a);
        }
    }
}

/// The order of `str::cmp` on texts, as a relation.
pub open spec fn text_le() -> spec_fn(Seq<char>, Seq<char>) -> bool {
    |a: Seq<char>, b: Seq<char>| seq_le(a, b)
}

/// `a < b` in the order of `str::cmp`.
pub fn vec_lt(a: &Vec<char>, b: &Vec<char>) -> (r: bool)
    ensures
        r == seq_lt(a@, b@),
{
    let mut i: usize = 0;
    assert(a@.skip(0) =~= a@);
    assert(b@.skip(0) =~= b@);
    while i < a.len() && i < b.len() && a[i] == b[i]
        invariant
            i <= a.len(),
            i <= b.len(),
            seq_lt(a@, b@) == seq_lt(a@.skip(i as int), b@.skip(i as int)),
        decreases a.len() - i,
    {
        assert(a@.skip(i as int).drop_first() =~= a@.skip(i + 1));
        assert(b@.skip(i as int).drop_first() =~= b@.skip(i + 1));
        i = i + 1;
    }
    if i == a.len() {
        i < b.len()
    } else if i == b.len() {
        false
    } else {
        a[i] < b[i]
    }
}

/// The decimal digit or lower-case hexadecimal digit of `d`.
pub open spec fn hex_lower(d: nat) -> char {
    if d == 0 {
        '0'
    } else if d == 1 {
        '1'
    } else if d == 2 {
        '2'
    } else if d == 3 {
        '3'
    } else if d == 4 {
        '4'
    } else if d == 5 {
        '5'
    } else if d == 6 {
        '6'
    } else if d == 7 {
        '7'
    } else if d == 8 {
        '8'
    } else if d == 9 {
        '9'
    } else if d == 10 {
        'a'
    } else if d == 11 {
        'b'
    } else if d == 12 {
        'c'
    } else if d == 13 {
        'd'
    } else if d == 14 {
        'e'
    } else {
        'f'
    }
}

/// The upper-case hexadecimal digit of `d`.
pub open spec fn hex_upper(d: nat) -> char {
    if d == 10 {
        'A'
    } else if d == 11 {
        'B'
    } else if d == 12 {
        'C'
    } else if d == 13 {
        'D'
    } else if d == 14 {
        'E'
    } else if d == 15 {
        'F'
    } else {
        hex_lower(d)
    }
}

pub fn hex_lower_char(d: u64) -> (c: char)
    requires
        d < 16,
    ensures
        c == hex_lower(d as nat),
{
    if d == 0 {
        '0'
    } else if d == 1 {
        '1'
    } else if d == 2 {
        '2'
    } else if d == 3 {
        '3'
    } else if d == 4 {
        '4'
    } else if d == 5 {
        '5'
    } else if d == 6 {
        '6'
    } else if d == 7 {
        '7'
    } else if d == 8 {
        '8'
    } else if d == 9 {
        '9'
    } else if d == 10 {
        'a'
    } else if d == 11 {
        'b'
    } else if d == 12 {
        'c'
    } else if d == 13 {
        'd'
    } else if d == 14 {
        'e'
    } else {
        'f'
    }
}

pub fn hex_upper_char(d: u64) -> (c: char)
    requires
        d < 16,
    ensures
        c == hex_upper(d as nat),
{
    if d == 10 {
        'A'
    } else if d == 11 {
        'B'
    } else if d == 12 {
        'C'
    } else if d == 13 {
        'D'
    } else if d == 14 {
        'E'
    } else if d == 15 {
        'F'
    } else {
        hex_lower_char(d)
    }
}

/// Decimal rendering of `n`, with no leading zeros (`format!("{}", n)`).
pub open spec fn decimal(n: nat) -> Seq<char>
    decreases n,
{
    if n < 10 {
        seq![hex_lower(n)]
    } else {
        decimal(n / 10).push(hex_lower(n % 10))
    }
}

/// Appends the decimal rendering of `n`.
pub fn push_decimal(out: &mut Vec<char>, n: u64)
    ensures
        final(out)@ == old(out)@ + decimal(n as nat),
    decreases n,
{
    if n >= 10 {
        push_decimal(out, n / 10);
    }
    out.push(hex_lower_char(n % 10));
    assert(final(out)@ =~= old(out)@ + decimal(n as nat));
}

/// The last `width` hexadecimal digits of `n`, lower case, zero padded
/// (`format!("{:0width$x}", n)` for `n < 16^width`).
pub open spec fn hex_fixed(n: nat, width: nat) -> Seq<char>
    decreases width,
{
    if width == 0 {
        Seq::empty()
    } else {
        hex_fixed(n / 16, (width - 1) as nat).push(hex_lower(n % 16))
    }
}

/// Upper-case counterpart of [`hex_fixed`].
pub open spec fn hex_fixed_upper(n: nat, width: nat) -> Seq<char>
    decreases width,
{
    if width == 0 {
        Seq::empty()
    } else {
        hex_fixed_upper(n / 16, (width - 1) as nat).push(hex_upper(n % 16))
    }
}

/// Appends [`hex_fixed`]`(n, width)`.
pub fn push_hex_fixed(out: &mut Vec<char>, n: u64, width: u64)
    ensures
        final(out)@ == old(out)@ + hex_fixed(n as nat, width as nat),
    decreases width,
{
    if width > 0 {
        push_hex_fixed(out, n / 16, width - 1);
        out.push(hex_lower_char(n % 16));
    }
    assert(final(out)@ =~= old(out)@ + hex_fixed(n as nat, width as nat));
}

/// Appends [`hex_fixed_upper`]`(n, width)`.
pub fn push_hex_fixed_upper(out: &mut Vec<char>, n: u64, width: u64)
    ensures
        final(out)@ == old(out)@ + hex_fixed_upper(n as nat, width as nat),
    decreases width,
{
    if width > 0 {
        push_hex_fixed_upper(out, n / 16, width - 1);
        out.push(hex_upper_char(n % 16));
    }
    assert(final(out)@ =~= old(out)@ + hex_fixed_upper(n as nat, width as nat));
}

/// Appends every character of `t`.
pub fn push_all(out: &mut Vec<char>, t: &Vec<char>)
    ensures
        final(out)@ == old(out)@ + t@,
{
    let mut i: usize = 0;
    while i < t.len()
        invariant
            i <= t.len(),
            out@ == old(out)@ + t@.subrange(0, i as int),
        decreases t.len() - i,
    {
        out.push(t[i]);
        assert(out@ =~= old(out)@ + t@.subrange(0, i + 1));
        i = i + 1;
    }
    assert(t@.subrange(0, t.len() as int) =~= t@);
}

/// Appends every character of a string slice.
pub fn push_str_chars(out: &mut Vec<char>, t: &str)
    ensures
        final(out)@ == old(out)@ + t@,
{
    let v = chars_of(t);
    push_all(out, &v);
}

/// Index of the first `'\n'` at or after `i`, or `s.len()`.
pub open spec fn next_newline(s: Seq<char>, i: int) -> int
    decreases s.len() - i,
{
    if i >= s.len() {
        s.len() as int
    } else if s[i] == '\n' {
        i
    } else {
        next_newline(s, i + 1)
    }
}

/// A line without its terminating `'\r'`, as `str::lines` yields it.
pub open spec fn strip_cr(s: Seq<char>) -> Seq<char> {
    if s.len() > 0 && s.last() == '\r' {
        s.drop_last()
    } else {
        s
    }
}

/// The lines of `s` from position `start` on, as `str::lines` splits them:
/// separated by `'\n'`, a trailing `'\r'` removed from each, and no final
/// empty line after a trailing `'\n'`.
pub open spec fn lines_from(s: Seq<char>, start: int) -> Seq<Seq<char>>
    decreases s.len() - start,
{
    if start >= s.len() || start < 0 {
        Seq::empty()
    } else {
        let e = next_newline(s, start);
        if e < start || e > s.len() {
            Seq::empty()
        } else if e == s.len() {
            seq![strip_cr(s.subrange(start, e))]
        } else {
            seq![strip_cr(s.subrange(start, e))] + lines_from(s, e + 1)
        }
    }
}

/// `str::lines`.
pub open spec fn lines(s: Seq<char>) -> Seq<Seq<char>> {
    lines_from(s, 0)
}

pub proof fn lemma_next_newline(s: Seq<char>, i: int)
    requires
        0 <= i <= s.len(),
    ensures
        i <= next_newline(s, i) <= s.len(),
        next_newline(s, i) < s.len() ==> s[next_newline(s, i)] == '\n',
        forall|j: int| i <= j < next_newline(s, i) ==> s[j] != '\n',
    decreases s.len() - i,
{
    if i < s.len() && s[i] != '\n' {
        lemma_next_newline(s, i + 1);
    }
}

/// Finds the end of the line starting at `i`.
pub fn find_newline(s: &Vec<char>, i: usize) -> (e: usize)
    requires
        i <= s.len(),
    ensures
        e == next_newline(s@, i as int),
        i <= e <= s.len(),
{
    let mut e = i;
    while e < s.len() && s[e] != '\n'
        invariant
            i <= e <= s.len(),
            next_newline(s@, i as int) == next_newline(s@, e as int),
        decreases s.len() - e,
    {
        e = e + 1;
    }
    e
}

/// The line `s[i..e]` without a trailing `'\r'`.
pub fn line_slice(s: &Vec<char>, i: usize, e: usize) -> (t: Vec<char>)
    requires
        i <= e <= s.len(),
    ensures
        t@ == strip_cr(s@.subrange(i as int, e as int)),
{
    if e > i && s[e - 1] == '\r' {
        let t = slice_vec(s, i, e - 1);
        assert(t@ =~= strip_cr(s@.subrange(i as int, e as int)));
        t
    } else {
        slice_vec(s, i, e)
    }
}

/// The character sequences held by a vector of character vectors.
pub open spec fn rows(v: Seq<Vec<char>>) -> Seq<Seq<char>> {
    Seq::new(v.len(), |k: int| v[k]@)
}

/// The character sequences held by a vector of strings.
pub open spec fn string_rows(v: Seq<String>) -> Seq<Seq<char>> {
    Seq::new(v.len(), |k: int| v[k]@)
}

/// Splits a text into lines exactly as `str::lines` does.
pub fn split_lines(s: &Vec<char>) -> (ls: Vec<Vec<char>>)
    ensures
        ls@.len() == lines(s@).len(),
        forall|k: int| 0 <= k < ls@.len() ==> #[trigger] ls@[k]@ == lines(s@)[k],
{
    let mut ls: Vec<Vec<char>> = Vec::new();
    let mut start: usize = 0;
    let ghost mut done: Seq<Seq<char>> = Seq::empty();
    while start < s.len()
        invariant
            start <= s.len(),
            lines(s@) == done + lines_from(s@, start as int),
            ls@.len() == done.len(),
            forall|k: int| 0 <= k < ls@.len() ==> #[trigger] ls@[k]@ == done[k],
        decreases s.len() - start,
    {
        let e = find_newline(s, start);
        let line = line_slice(s, start, e);
        proof {
            let rest = lines_from(s@, e + 1);
            assert(lines_from(s@, start as int) == seq![strip_cr(s@.subrange(start as int, e as int))]
                + rest);
            done = done.push(line@);
            assert(lines(s@) =~= done + rest);
        }
        ls.push(line);
        if e < s.len() {
            start = e + 1;
        } else {
            proof {
                assert(lines_from(s@, e + 1) == Seq::<Seq<char>>::empty());
            }
            start = e;
            proof {
                assert(lines(s@) =~= done + lines_from(s@, start as int));
            }
        }
    }
    proof {
        assert(lines(s@) =~= done);
    }
    ls
}


/// First position at or after `i` where `p` occurs, or `s.len()`.
pub open spec fn next_occurrence(s: Seq<char>, p: Seq<char>, i: int) -> int
    decreases s.len() - i,
{
    if i >= s.len() {
        s.len() as int
    } else if occurs_at(s, i, p) {
        i
    } else {
        next_occurrence(s, p, i + 1)
    }
}

/// The pieces of `s` from `start` on, split at every non-overlapping
/// occurrence of the non-empty pattern `p`, leftmost first (`str::split`).
pub open spec fn split_from(s: Seq<char>, p: Seq<char>, start: int) -> Seq<Seq<char>>
    decreases s.len() - start,
{
    if start < 0 || start > s.len() || p.len() == 0 {
        seq![Seq::<char>::empty()]
    } else {
        let e = next_occurrence(s, p, start);
        if e < start || e >= s.len() || e + p.len() > s.len() {
            seq![s.subrange(start, s.len() as int)]
        } else {
            seq![s.subrange(start, e)] + split_from(s, p, e + p.len())
        }
    }
}

/// `str::split` with a non-empty pattern.
pub open spec fn split(s: Seq<char>, p: Seq<char>) -> Seq<Seq<char>> {
    split_from(s, p, 0)
}

pub proof fn lemma_next_occurrence(s: Seq<char>, p: Seq<char>, i: int)
    requires
        0 <= i <= s.len(),
    ensures
        i <= next_occurrence(s, p, i) <= s.len(),
        next_occurrence(s, p, i) < s.len() ==> occurs_at(s, next_occurrence(s, p, i), p),
    decreases s.len() - i,
{
    if i < s.len() && !occurs_at(s, i, p) {
        lemma_next_occurrence(s, p, i + 1);
    }
}

/// Splits `s` at every occurrence of the non-empty pattern `p`.
pub fn split_vec(s: &Vec<char>, p: &Vec<char>) -> (parts: Vec<Vec<char>>)
    requires
        p@.len() > 0,
    ensures
        parts@.len() == split(s@, p@).len(),
        forall|k: int| 0 <= k < parts@.len() ==> #[trigger] parts@[k]@ == split(s@, p@)[k],
{
    let mut parts: Vec<Vec<char>> = Vec::new();
    let mut start: usize = 0;
    let ghost mut done: Seq<Seq<char>> = Seq::empty();
    loop
        invariant
            start <= s.len(),
            p@.len() > 0,
            split(s@, p@) == done + split_from(s@, p@, start as int),
            parts@.len() == done.len(),
            forall|k: int| 0 <= k < parts@.len() ==> #[trigger] parts@[k]@ == done[k],
        decreases s.len() - start,
    {
        let mut e = start;
        while e < s.len() && !matches_at(s, e, p)
            invariant
                start <= e <= s.len(),
                next_occurrence(s@, p@, start as int) == next_occurrence(s@, p@, e as int),
            decreases s.len() - e,
        {
            e = e + 1;
        }
        proof {
            lemma_next_occurrence(s@, p@, start as int);
        }
        if e >= s.len() {
            let piece = slice_vec(s, start, s.len());
            proof {
                assert(split_from(s@, p@, start as int) == seq![s@.subrange(start as int, s.len() as int)]);
                done = done.push(piece@);
                assert(split(s@, p@) =~= done);
            }
            parts.push(piece);
            return parts;
        }
        let piece = slice_vec(s, start, e);
        proof {
            assert(occurs_at(s@, e as int, p@));
            assert(split_from(s@, p@, start as int) == seq![s@.subrange(start as int, e as int)]
                + split_from(s@, p@, e + p@.len()));
            done = done.push(piece@);
            assert(split(s@, p@) =~= done + split_from(s@, p@, e + p@.len()));
        }
        parts.push(piece);
        start = e + p.len();
    }
}

/// A vector holding one character.
pub fn one_char(c: char) -> (v: Vec<char>)
    ensures
        v@ == seq![c],
{
    let mut v: Vec<char> = Vec::new();
    v.push(c);
    assert(v@ =~= seq![c]);
    v
}

/// Inserts a text at its place in a list sorted by [`text_le`].
pub fn insert_text(v: &mut Vec<Vec<char>>, x: Vec<char>)
    requires
        vstd::relations::sorted_by(rows(old(v)@), text_le()),
    ensures
        vstd::relations::sorted_by(rows(final(v)@), text_le()),
        rows(final(v)@).to_multiset() == rows(old(v)@).to_multiset().insert(
            x@,
        ),
{
    broadcast use vstd::seq_lib::group_to_multiset_ensures;

    proof {
        lemma_seq_le_total_ordering();
    }
    let ghost s = rows(v@);
    let mut k = v.len();
    while k > 0 && vec_lt(&x, &v[k - 1])
        invariant
            k <= v@.len(),
            s == rows(v@),
            forall|j: int| k <= j < s.len() ==> seq_lt(x@, #[trigger] s[j]),
        decreases k,
    {
        assert(s[k - 1] == v@[k - 1]@);
        k = k - 1;
    }
    let ghost xs = x@;
    v.insert(k, x);
    proof {
        let t = rows(v@);
        assert(t =~= s.insert(k as int, xs));
        let leq = text_le();
        assert(vstd::relations::total_ordering(leq));
        assert forall|a: int, b: int| 0 <= a < b < t.len() implies #[trigger] leq(t[a], t[b]) by {
            if b < k {
                assert(leq(s[a], s[b]));
            } else if b == k {
                if a < k - 1 {
                    assert(leq(s[a], s[k - 1]));
                }
                assert(s[k - 1] == v@[k - 1]@);
                assert(!seq_lt(xs, s[k - 1]));
                assert(leq(s[k - 1], xs));
            } else if a == k {
                assert(seq_lt(xs, s[b - 1]));
                lemma_seq_lt_total(s[b - 1], xs);
                if seq_lt(s[b - 1], xs) {
                    lemma_seq_lt_trans(xs, s[b - 1], xs);
                    lemma_seq_lt_irrefl_eq(xs, xs);
                }
            } else if a < k {
                assert(leq(s[a], s[b - 1]));
            } else {
                assert(leq(s[a - 1], s[b - 1]));
            }
        }
    }
}


/// Sorts texts in the order of `str::cmp`.
pub fn sort_texts(v: &Vec<Vec<char>>) -> (r: Vec<Vec<char>>)
    ensures
        rows(r@) == rows(v@).sort_by(text_le()),
{
    broadcast use vstd::seq_lib::group_to_multiset_ensures;

    let ghost all = rows(v@);
    let mut sorted: Vec<Vec<char>> = Vec::new();
    let mut i: usize = 0;
    assert(rows(sorted@) =~= Seq::<Seq<char>>::empty());
    assert(all.take(0) =~= Seq::<Seq<char>>::empty());
    while i < v.len()
        invariant
            i <= v@.len(),
            all == rows(v@),
            vstd::relations::sorted_by(rows(sorted@), text_le()),
            rows(sorted@).to_multiset() == all.take(i as int).to_multiset(),
        decreases v.len() - i,
    {
        let x = slice_vec(&v[i], 0, v[i].len());
        assert(v@[i as int]@.subrange(0, v@[i as int]@.len() as int) =~= v@[i as int]@);
        let ghost xs = x@;
        assert(all.take(i + 1) =~= all.take(i as int).push(xs));
        proof {
            vstd::seq_lib::to_multiset_build(all.take(i as int), xs);
        }
        insert_text(&mut sorted, x);
        i = i + 1;
    }
    proof {
        assert(all.take(i as int) =~= all);
        lemma_seq_le_total_ordering();
        all.lemma_sort_by_ensures(text_le());
        vstd::seq_lib::lemma_sorted_unique(rows(sorted@), all.sort_by(text_le()), text_le());
    }
    sorted
}

} // verus!
