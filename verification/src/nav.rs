//! Semantic code navigation: the `@pinker-nav:start/end` markers, the lexical
//! trackers that tell a real comment from text that only looks like one (Rust
//! and Pinker dialects), the metadata grammar of a region, the per-file scan
//! into regions, the deterministic catalogue serialization, the extraction and
//! validation of a region against its source, and the controlled roots.
use crate::text::{
    chars_of, decimal, has_prefix, hex_fixed, is_whitespace, is_ws, lines, lines_from, matches_at,
    occurs_at, one_char, push_all, push_decimal, push_hex_fixed, push_str_chars, rows, skip_ws_sub, string_rows,
    slice_vec, split, split_lines, split_vec, string_from, trim, trim_start, trimmed, vec_eq,
};
pub use crate::nav_mask::{rust_code_mask, rust_doc_comment_spans};
use vstd::prelude::*;
use vstd::string::StringSliceAdditionalSpecFns;
use vstd::utf8::encode_utf8;

verus! {

/// Start marker.
pub const START: &'static str = "@pinker-nav:start";

/// End marker.
pub const END: &'static str = "@pinker-nav:end";

/// Prefix of every metadata field.
pub const FIELD_PREFIX: &'static str = "@pinker-nav:";

// ---------------------------------------------------------------------------
// Byte-level lexical trackers.
// ---------------------------------------------------------------------------

/// Lexical state of a Rust source between lines: only the delimiters that can
/// span lines and hide a `//` are tracked.
#[derive(Debug, Clone, Copy, PartialEq, Eq, Structural)]
pub enum LexicalState {
    Code,
    NormalString,
    ByteString,
    RawString(usize),
    RawByteString(usize),
    BlockComment(usize),
}

/// Lexical state of a Pinker source between lines: normal strings, triple
/// strings (`"""`, which span lines), interpolated strings (`$"`) and nested
/// block comments.
#[derive(Debug, Clone, Copy, PartialEq, Eq, Structural)]
pub enum PinkerState {
    Code,
    NormalString,
    InterpolatedString,
    TripleString,
    BlockComment(usize),
}

/// `b[i..]` starts with the two bytes `c0 c1`.
pub open spec fn at2(b: Seq<u8>, i: int, c0: u8, c1: u8) -> bool {
    0 <= i && i + 1 < b.len() && b[i] == c0 && b[i + 1] == c1
}

/// `b[i..]` starts with the three bytes `c0 c1 c2`.
pub open spec fn at3(b: Seq<u8>, i: int, c0: u8, c1: u8, c2: u8) -> bool {
    0 <= i && i + 2 < b.len() && b[i] == c0 && b[i + 1] == c1 && b[i + 2] == c2
}

/// ASCII whitespace as `u8::is_ascii_whitespace` defines it.
pub open spec fn ascii_ws(c: u8) -> bool {
    c == 0x20 || c == 0x09 || c == 0x0a || c == 0x0c || c == 0x0d
}

/// Index of the first byte that is not ASCII whitespace.
pub open spec fn first_non_ws_from(b: Seq<u8>, i: int) -> Option<int>
    decreases b.len() - i,
{
    if i < 0 || i >= b.len() {
        None
    } else if !ascii_ws(b[i]) {
        Some(i)
    } else {
        first_non_ws_from(b, i + 1)
    }
}

fn first_non_ws(b: &[u8]) -> (r: Option<usize>)
    ensures
        r matches Some(k) ==> first_non_ws_from(b@, 0) == Some(k as int),
        r is None ==> first_non_ws_from(b@, 0) is None,
{
    let mut i: usize = 0;
    while i < b.len()
        invariant
            i <= b@.len(),
            first_non_ws_from(b@, 0) == first_non_ws_from(b@, i as int),
        decreases b.len() - i,
    {
        let c = b[i];
        if !(c == 0x20 || c == 0x09 || c == 0x0a || c == 0x0c || c == 0x0d) {
            return Some(i);
        }
        i = i + 1;
    }
    None
}

/// Number of `#` at `b[p..]`.
pub open spec fn hashes_from(b: Seq<u8>, p: int) -> int
    decreases b.len() - p,
{
    if p < 0 || p >= b.len() || b[p] != 0x23 {
        0
    } else {
        1 + hashes_from(b, p + 1)
    }
}

/// Prefix of a Rust raw string (`r#*"` or `br#*"`): its length, the number of
/// `#` and whether it is a raw byte string.
pub open spec fn raw_start_spec(b: Seq<u8>) -> Option<(int, int, bool)> {
    let (prefix_len, is_byte) = if at2(b, 0, 0x62, 0x72) {
        (2int, true)
    } else if b.len() > 0 && b[0] == 0x72 {
        (1int, false)
    } else {
        (-1int, false)
    };
    if prefix_len < 0 {
        None
    } else {
        let pos = prefix_len + hashes_from(b, prefix_len);
        if pos < b.len() && b[pos] == 0x22 {
            Some((pos + 1, pos - prefix_len, is_byte))
        } else {
            None
        }
    }
}

proof fn lemma_hashes_bound(b: Seq<u8>, p: int)
    requires
        0 <= p,
    ensures
        0 <= hashes_from(b, p),
        p + hashes_from(b, p) <= b.len() || hashes_from(b, p) == 0,
        forall|k: int| p <= k < p + hashes_from(b, p) ==> b[k] == 0x23,
    decreases b.len() - p,
{
    if p < b.len() && b[p] == 0x23 {
        lemma_hashes_bound(b, p + 1);
    }
}

/// Recognizes the prefix of a Rust raw string at `b[i..]`.
pub fn raw_string_start(b: &[u8], i: usize) -> (r: Option<(usize, usize, bool)>)
    requires
        i <= b@.len(),
        b@.len() < usize::MAX,
    ensures
        r matches Some(t) ==> raw_start_spec(b@.skip(i as int)) == Some((t.0 as int, t.1 as int, t.2)),
        r is None ==> raw_start_spec(b@.skip(i as int)) is None,
{
    let ghost s = b@.skip(i as int);
    let (prefix_len, is_byte): (usize, bool) = if i + 1 < b.len() && b[i] == 0x62 && b[i + 1] == 0x72 {
        (2, true)
    } else if i < b.len() && b[i] == 0x72 {
        (1, false)
    } else {
        return None;
    };
    let mut pos: usize = i + prefix_len;
    proof {
        lemma_hashes_bound(s, prefix_len as int);
    }
    while pos < b.len() && b[pos] == 0x23
        invariant
            i + prefix_len <= pos <= b@.len(),
            s == b@.skip(i as int),
            hashes_from(s, prefix_len as int) == (pos - i - prefix_len) + hashes_from(
                s,
                pos - i,
            ),
        decreases b.len() - pos,
    {
        pos = pos + 1;
    }
    proof {
        assert(hashes_from(s, pos - i) == 0);
    }
    if pos < b.len() && b[pos] == 0x22 {
        Some((pos + 1 - i, pos - i - prefix_len, is_byte))
    } else {
        None
    }
}

/// Width of the UTF-8 encoding that starts with leading byte `c`.
pub open spec fn lead_width(c: u8) -> int {
    if c < 0x80 {
        1
    } else if c < 0xe0 {
        2
    } else if c < 0xf0 {
        3
    } else {
        4
    }
}

/// Length of a character literal at `b[0..]` that closes on the same line,
/// so that a lifetime like `'a` is never taken for an open literal.
pub open spec fn char_literal_spec(b: Seq<u8>) -> Option<int> {
    if b.len() == 0 || b[0] != 0x27 {
        None
    } else if b.len() > 1 && b[1] == 0x5c {
        if b.len() > 3 && b[3] == 0x27 {
            Some(4)
        } else {
            None
        }
    } else if b.len() < 2 {
        None
    } else {
        let close = 1 + lead_width(b[1]);
        if close < b.len() && b[close] == 0x27 {
            Some(close + 1)
        } else {
            None
        }
    }
}

/// Recognizes a single-line character literal at `b[i..]`.
pub fn char_literal_len(b: &[u8], i: usize) -> (r: Option<usize>)
    requires
        i <= b@.len(),
    ensures
        r matches Some(n) ==> char_literal_spec(b@.skip(i as int)) == Some(n as int),
        r is None ==> char_literal_spec(b@.skip(i as int)) is None,
{
    let n = b.len() - i;
    if n == 0 || b[i] != 0x27 {
        return None;
    }
    if n > 1 && b[i + 1] == 0x5c {
        return if n > 3 && b[i + 3] == 0x27 {
            Some(4)
        } else {
            None
        };
    }
    if n < 2 {
        return None;
    }
    let c = b[i + 1];
    let w: usize = if c < 0x80 {
        1
    } else if c < 0xe0 {
        2
    } else if c < 0xf0 {
        3
    } else {
        4
    };
    let close = 1 + w;
    if close < n && b[i + close] == 0x27 {
        Some(close + 1)
    } else {
        None
    }
}

/// `b[i+1..]` starts with `h` `#` bytes.
pub open spec fn hashes_follow(b: Seq<u8>, i: int, h: int) -> bool {
    i + 1 + h <= b.len() && forall|k: int| i + 1 <= k < i + 1 + h ==> b[k] == 0x23
}

fn hashes_follow_exec(b: &[u8], i: usize, h: usize) -> (r: bool)
    requires
        i < b@.len(),
        b@.len() < usize::MAX,
    ensures
        r == hashes_follow(b@, i as int, h as int),
{
    if h > b.len() - i - 1 {
        return false;
    }
    let mut k: usize = 0;
    while k < h
        invariant
            i + 1 + h <= b@.len(),
            b@.len() < usize::MAX,
            k <= h,
            forall|m: int| i + 1 <= m < i + 1 + k ==> b@[m] == 0x23,
        decreases h - k,
    {
        if b[i + 1 + k] != 0x23 {
            return false;
        }
        k = k + 1;
    }
    true
}

/// One step of the Rust tracker at byte `i` in state `st`: the next state
/// and position, or the end of the line's scan with the comment start found
/// (`Some` only when `//` is the first non-blank token).
pub open spec fn rust_step(b: Seq<u8>, fnw: Option<int>, st: LexicalState, i: int) -> (
    bool,
    Option<int>,
    LexicalState,
    int,
) {
    match st {
        LexicalState::Code => if at2(b, i, 0x2f, 0x2f) {
            (true, if fnw == Some(i) { Some(i) } else { None }, st, i)
        } else if at2(b, i, 0x2f, 0x2a) {
            (false, None, LexicalState::BlockComment(1), i + 2)
        } else if raw_start_spec(b.skip(i)) is Some {
            let t = raw_start_spec(b.skip(i)).unwrap();
            (
                false,
                None,
                if t.2 {
                    LexicalState::RawByteString(t.1 as usize)
                } else {
                    LexicalState::RawString(t.1 as usize)
                },
                i + t.0,
            )
        } else if at2(b, i, 0x62, 0x22) {
            (false, None, LexicalState::ByteString, i + 2)
        } else if char_literal_spec(b.skip(i)) is Some {
            (false, None, st, i + char_literal_spec(b.skip(i)).unwrap())
        } else if b[i] == 0x22 {
            (false, None, LexicalState::NormalString, i + 1)
        } else {
            (false, None, st, i + 1)
        },
        LexicalState::NormalString | LexicalState::ByteString => if b[i] == 0x5c {
            (false, None, st, i + 2)
        } else if b[i] == 0x22 {
            (false, None, LexicalState::Code, i + 1)
        } else {
            (false, None, st, i + 1)
        },
        LexicalState::RawString(h) | LexicalState::RawByteString(h) => if b[i] == 0x22
            && hashes_follow(b, i, h as int) {
            (false, None, LexicalState::Code, i + h + 1)
        } else {
            (false, None, st, i + 1)
        },
        LexicalState::BlockComment(d) => if at2(b, i, 0x2f, 0x2a) {
            (false, None, LexicalState::BlockComment((d + 1) as usize), i + 2)
        } else if at2(b, i, 0x2a, 0x2f) {
            (
                false,
                None,
                if d == 1 {
                    LexicalState::Code
                } else {
                    LexicalState::BlockComment((d - 1) as usize)
                },
                i + 2,
            )
        } else {
            (false, None, st, i + 1)
        },
    }
}

/// The Rust tracker run over the rest of a line from byte `i`: the comment
/// start (if any) and the state left for the next line.
pub open spec fn rust_scan(b: Seq<u8>, fnw: Option<int>, st: LexicalState, i: int) -> (
    Option<int>,
    LexicalState,
)
    decreases b.len() - i,
{
    if i < 0 || i >= b.len() {
        (None, st)
    } else {
        let (stop, found, st2, j) = rust_step(b, fnw, st, i);
        if stop {
            (found, st2)
        } else if j <= i || j >= b.len() {
            (None, st2)
        } else {
            rust_scan(b, fnw, st2, j)
        }
    }
}

/// Size bound under which no position overflows.
pub open spec fn line_fits(b: Seq<u8>) -> bool {
    b.len() < usize::MAX / 2
}

/// A block comment state has depth at least one.
pub open spec fn rust_state_ok(st: LexicalState) -> bool {
    st matches LexicalState::BlockComment(d) ==> d >= 1
}

/// Nesting depth of a Rust lexical state (zero outside block comments).
pub open spec fn rust_depth(st: LexicalState) -> int {
    match st {
        LexicalState::BlockComment(d) => d as int,
        _ => 0,
    }
}

/// Suffix of a line's text starting at byte `k`, as a slice of the line.
fn suffix_at<'a>(line: &'a str, k: usize) -> (r: &'a str)
    requires
        k <= line.spec_bytes().len(),
        k < line.spec_bytes().len() ==> line.spec_bytes()[k as int] < 0x80,
    ensures
        r.spec_bytes() == line.spec_bytes().skip(k as int),
{
    proof {
        vstd::utf8::encode_utf8_valid_utf8(line@);
        if k == line.spec_bytes().len() {
            vstd::utf8::is_char_boundary_start_end_of_seq(line.spec_bytes());
        } else {
            vstd::utf8::is_char_boundary_iff_not_is_continuation_byte(line.spec_bytes(), k as int);
        }
    }
    let (_, rest) = line.split_at(k);
    assert(rest.spec_bytes() =~= line.spec_bytes().skip(k as int));
    rest
}

/// Returns the candidate comment only when `//` is the first non-blank token
/// of a line that started in code, and advances the lexical state to the next
/// line (Rust dialect).
pub fn marker_comment<'a>(line: &'a str, state: &mut LexicalState) -> (r: Option<&'a str>)
    requires
        line_fits(line.spec_bytes()),
        rust_depth(*old(state)) + line.spec_bytes().len() < usize::MAX,
        rust_state_ok(*old(state)),
    ensures
        rust_state_ok(*final(state)),
        rust_depth(*final(state)) <= rust_depth(*old(state)) + line.spec_bytes().len(),
        ({
            let b = line.spec_bytes();
            let (found, st) = rust_scan(b, first_non_ws_from(b, 0), *old(state), 0);
            &&& *final(state) == st
            &&& found is None ==> r is None
            &&& found matches Some(k) ==> r matches Some(c) && c.spec_bytes() == b.skip(k)
        }),
{
    let bytes = line.as_bytes();
    let ghost b = bytes@;
    let fnw = first_non_ws(bytes);
    let ghost gf = first_non_ws_from(b, 0);
    let ghost st0 = *state;
    let mut i: usize = 0;
    while i < bytes.len()
        invariant
            b == bytes@,
            b == line.spec_bytes(),
            line_fits(b),
            gf == first_non_ws_from(b, 0),
            fnw matches Some(k) ==> gf == Some(k as int),
            fnw is None ==> gf is None,
            i <= b.len() + 1,
            rust_scan(b, gf, st0, 0) == rust_scan(b, gf, *state, i as int),
            st0 == *old(state),
            rust_depth(st0) + b.len() < usize::MAX,
            rust_depth(*state) <= rust_depth(st0) + (if i <= b.len() { i as int } else { b.len() as int }),
            rust_state_ok(*state),
        decreases b.len() + 1 - i,
    {
        let ghost st_before = *state;
        let ghost i_before = i as int;
        match *state {
            LexicalState::Code => {
                if i + 1 < bytes.len() && bytes[i] == 0x2f && bytes[i + 1] == 0x2f {
                    let first = match fnw {
                        Some(k) => k == i,
                        None => false,
                    };
                    proof {
                        assert(rust_step(b, gf, *state, i as int).0);
                        assert(rust_scan(b, gf, *state, i as int).0 == rust_step(b, gf, *state, i as int).1 && *state == rust_scan(b, gf, *state, i as int).1);
                    }
                    if first {
                        let c = suffix_at(line, i);
                        proof {
                            assert(gf == Some(i as int));
                            assert(rust_scan(b, gf, st0, 0).0 == Some(i as int));
                            assert(rust_scan(b, gf, st0, 0).1 == *state);
                        }
                        return Some(c);
                    }
                    proof {
                        assert(gf != Some(i as int));
                        assert(rust_scan(b, gf, st0, 0).0 is None);
                        assert(rust_scan(b, gf, st0, 0).1 == *state);
                    }
                    return None;
                }
                if i + 1 < bytes.len() && bytes[i] == 0x2f && bytes[i + 1] == 0x2a {
                    *state = LexicalState::BlockComment(1);
                    i = i + 2;
                } else {
                    match raw_string_start(bytes, i) {
                        Some((raw_len, hashes, is_byte)) => {
                            *state = if is_byte {
                                LexicalState::RawByteString(hashes)
                            } else {
                                LexicalState::RawString(hashes)
                            };
                            i = i + raw_len;
                        },
                        None => {
                            if i + 1 < bytes.len() && bytes[i] == 0x62 && bytes[i + 1] == 0x22 {
                                *state = LexicalState::ByteString;
                                i = i + 2;
                            } else {
                                match char_literal_len(bytes, i) {
                                    Some(n) => {
                                        i = i + n;
                                    },
                                    None => {
                                        if bytes[i] == 0x22 {
                                            *state = LexicalState::NormalString;
                                        }
                                        i = i + 1;
                                    },
                                }
                            }
                        },
                    }
                }
            },
            LexicalState::NormalString | LexicalState::ByteString => {
                if bytes[i] == 0x5c {
                    i = i + 2;
                } else if bytes[i] == 0x22 {
                    *state = LexicalState::Code;
                    i = i + 1;
                } else {
                    i = i + 1;
                }
            },
            LexicalState::RawString(hashes) | LexicalState::RawByteString(hashes) => {
                if bytes[i] == 0x22 && hashes_follow_exec(bytes, i, hashes) {
                    *state = LexicalState::Code;
                    i = i + hashes + 1;
                } else {
                    i = i + 1;
                }
            },
            LexicalState::BlockComment(depth) => {
                if i + 1 < bytes.len() && bytes[i] == 0x2f && bytes[i + 1] == 0x2a {
                    *state = LexicalState::BlockComment(depth + 1);
                    i = i + 2;
                } else if i + 1 < bytes.len() && bytes[i] == 0x2a && bytes[i + 1] == 0x2f {
                    if depth == 1 {
                        *state = LexicalState::Code;
                    } else {
                        *state = LexicalState::BlockComment(depth - 1);
                    }
                    i = i + 2;
                } else {
                    i = i + 1;
                }
            },
        }
        proof {
            let (stop, found, st2, j) = rust_step(b, gf, st_before, i_before);
            assert(!stop);
            assert(st2 == *state && j == i as int);
            if j >= b.len() {
                assert(rust_scan(b, gf, st_before, i_before) == (None::<int>, st2));
            }
        }
    }
    None
}


/// A block comment state has depth at least one (Pinker dialect).
pub open spec fn pinker_state_ok(st: PinkerState) -> bool {
    st matches PinkerState::BlockComment(d) ==> d >= 1
}

/// Nesting depth of a Pinker lexical state.
pub open spec fn pinker_depth(st: PinkerState) -> int {
    match st {
        PinkerState::BlockComment(d) => d as int,
        _ => 0,
    }
}

/// One step of the Pinker tracker at byte `i`.
pub open spec fn pinker_step(b: Seq<u8>, fnw: Option<int>, st: PinkerState, i: int) -> (
    bool,
    Option<int>,
    PinkerState,
    int,
) {
    match st {
        PinkerState::Code => if at2(b, i, 0x2f, 0x2f) {
            (true, if fnw == Some(i) { Some(i) } else { None }, st, i)
        } else if at2(b, i, 0x2f, 0x2a) {
            (false, None, PinkerState::BlockComment(1), i + 2)
        } else if at3(b, i, 0x22, 0x22, 0x22) {
            (false, None, PinkerState::TripleString, i + 3)
        } else if at2(b, i, 0x24, 0x22) {
            (false, None, PinkerState::InterpolatedString, i + 2)
        } else if b[i] == 0x22 {
            (false, None, PinkerState::NormalString, i + 1)
        } else {
            (false, None, st, i + 1)
        },
        PinkerState::NormalString | PinkerState::InterpolatedString => if b[i] == 0x5c {
            (false, None, st, i + 2)
        } else if b[i] == 0x22 {
            (false, None, PinkerState::Code, i + 1)
        } else {
            (false, None, st, i + 1)
        },
        PinkerState::TripleString => if at3(b, i, 0x22, 0x22, 0x22) {
            (false, None, PinkerState::Code, i + 3)
        } else {
            (false, None, st, i + 1)
        },
        PinkerState::BlockComment(d) => if at2(b, i, 0x2f, 0x2a) {
            (false, None, PinkerState::BlockComment((d + 1) as usize), i + 2)
        } else if at2(b, i, 0x2a, 0x2f) {
            (
                false,
                None,
                if d == 1 {
                    PinkerState::Code
                } else {
                    PinkerState::BlockComment((d - 1) as usize)
                },
                i + 2,
            )
        } else {
            (false, None, st, i + 1)
        },
    }
}

/// Normal and interpolated strings do not span lines: one left open at the
/// end of a line is closed there.
pub open spec fn pinker_line_end(st: PinkerState) -> PinkerState {
    match st {
        PinkerState::NormalString | PinkerState::InterpolatedString => PinkerState::Code,
        _ => st,
    }
}

/// The Pinker tracker run over the rest of a line from byte `i`.
pub open spec fn pinker_scan(b: Seq<u8>, fnw: Option<int>, st: PinkerState, i: int) -> (
    Option<int>,
    PinkerState,
)
    decreases b.len() - i,
{
    if i < 0 || i >= b.len() {
        (None, pinker_line_end(st))
    } else {
        let (stop, found, st2, j) = pinker_step(b, fnw, st, i);
        if stop {
            (found, st2)
        } else if j <= i || j >= b.len() {
            (None, pinker_line_end(st2))
        } else {
            pinker_scan(b, fnw, st2, j)
        }
    }
}

/// Marker recognizer of the Pinker dialect: the candidate comment only when
/// `//` is the first non-blank token of a line that started in code; `//`
/// inside a normal, triple or interpolated string, inside a block comment or
/// after code on the same line is ignored. Advances the state to the next
/// line.
pub fn marker_comment_pinker<'a>(line: &'a str, state: &mut PinkerState) -> (r: Option<&'a str>)
    requires
        line_fits(line.spec_bytes()),
        pinker_depth(*old(state)) + line.spec_bytes().len() < usize::MAX,
        pinker_state_ok(*old(state)),
    ensures
        pinker_state_ok(*final(state)),
        pinker_depth(*final(state)) <= pinker_depth(*old(state)) + line.spec_bytes().len(),
        ({
            let b = line.spec_bytes();
            let (found, st) = pinker_scan(b, first_non_ws_from(b, 0), *old(state), 0);
            &&& *final(state) == st
            &&& found is None ==> r is None
            &&& found matches Some(k) ==> r matches Some(c) && c.spec_bytes() == b.skip(k)
        }),
{
    let bytes = line.as_bytes();
    let ghost b = bytes@;
    let fnw = first_non_ws(bytes);
    let ghost gf = first_non_ws_from(b, 0);
    let ghost st0 = *state;
    let mut i: usize = 0;
    while i < bytes.len()
        invariant
            b == bytes@,
            b == line.spec_bytes(),
            line_fits(b),
            gf == first_non_ws_from(b, 0),
            fnw matches Some(k) ==> gf == Some(k as int),
            fnw is None ==> gf is None,
            i <= b.len() + 2,
            pinker_scan(b, gf, st0, 0) == pinker_scan(b, gf, *state, i as int) || (i >= b.len()
                && pinker_scan(b, gf, st0, 0) == (None::<int>, pinker_line_end(*state))),
            st0 == *old(state),
            pinker_depth(st0) + b.len() < usize::MAX,
            pinker_depth(*state) <= pinker_depth(st0) + (if i <= b.len() { i as int } else { b.len() as int }),
            pinker_state_ok(*state),
        decreases b.len() + 2 - i,
    {
        let ghost st_before = *state;
        let ghost i_before = i as int;
        match *state {
            PinkerState::Code => {
                if i + 1 < bytes.len() && bytes[i] == 0x2f && bytes[i + 1] == 0x2f {
                    let first = match fnw {
                        Some(k) => k == i,
                        None => false,
                    };
                    proof {
                        assert(pinker_step(b, gf, *state, i as int).0);
                    }
                    if first {
                        let c = suffix_at(line, i);
                        proof {
                            assert(gf == Some(i as int));
                            assert(pinker_scan(b, gf, st0, 0).0 == Some(i as int));
                            assert(pinker_scan(b, gf, st0, 0).1 == *state);
                        }
                        return Some(c);
                    }
                    proof {
                        assert(gf != Some(i as int));
                        assert(pinker_scan(b, gf, st0, 0).0 is None);
                        assert(pinker_scan(b, gf, st0, 0).1 == *state);
                    }
                    return None;
                }
                if i + 1 < bytes.len() && bytes[i] == 0x2f && bytes[i + 1] == 0x2a {
                    *state = PinkerState::BlockComment(1);
                    i = i + 2;
                } else if i + 2 < bytes.len() && bytes[i] == 0x22 && bytes[i + 1] == 0x22 && bytes[i
                    + 2] == 0x22 {
                    *state = PinkerState::TripleString;
                    i = i + 3;
                } else if i + 1 < bytes.len() && bytes[i] == 0x24 && bytes[i + 1] == 0x22 {
                    *state = PinkerState::InterpolatedString;
                    i = i + 2;
                } else if bytes[i] == 0x22 {
                    *state = PinkerState::NormalString;
                    i = i + 1;
                } else {
                    i = i + 1;
                }
            },
            PinkerState::NormalString | PinkerState::InterpolatedString => {
                if bytes[i] == 0x5c {
                    i = i + 2;
                } else if bytes[i] == 0x22 {
                    *state = PinkerState::Code;
                    i = i + 1;
                } else {
                    i = i + 1;
                }
            },
            PinkerState::TripleString => {
                if i + 2 < bytes.len() && bytes[i] == 0x22 && bytes[i + 1] == 0x22 && bytes[i + 2]
                    == 0x22 {
                    *state = PinkerState::Code;
                    i = i + 3;
                } else {
                    i = i + 1;
                }
            },
            PinkerState::BlockComment(depth) => {
                if i + 1 < bytes.len() && bytes[i] == 0x2f && bytes[i + 1] == 0x2a {
                    *state = PinkerState::BlockComment(depth + 1);
                    i = i + 2;
                } else if i + 1 < bytes.len() && bytes[i] == 0x2a && bytes[i + 1] == 0x2f {
                    if depth == 1 {
                        *state = PinkerState::Code;
                    } else {
                        *state = PinkerState::BlockComment(depth - 1);
                    }
                    i = i + 2;
                } else {
                    i = i + 1;
                }
            },
        }
        proof {
            let (stop, found, st2, j) = pinker_step(b, gf, st_before, i_before);
            assert(!stop);
            assert(st2 == *state && j == i as int);
            if j >= b.len() {
                assert(pinker_scan(b, gf, st_before, i_before) == (None::<int>, pinker_line_end(st2)));
            }
        }
    }
    if matches!(*state, PinkerState::NormalString | PinkerState::InterpolatedString) {
        *state = PinkerState::Code;
    }
    proof {
        assert(pinker_scan(b, gf, st0, 0) == (None::<int>, *state));
    }
    None
}


/// Each character encodes to at most four bytes.
pub proof fn lemma_encode_len(s: Seq<char>)
    ensures
        encode_utf8(s).len() <= 4 * s.len(),
    decreases s.len(),
{
    if s.len() > 0 {
        lemma_encode_len(s.drop_first());
    }
}

/// Total number of characters of a sequence of lines.
pub open spec fn total_len(ls: Seq<Seq<char>>) -> nat
    decreases ls.len(),
{
    if ls.len() == 0 {
        0
    } else {
        ls[0].len() + total_len(ls.drop_first())
    }
}

pub(crate) proof fn lemma_total_len_take(ls: Seq<Seq<char>>, k: int)
    requires
        0 <= k < ls.len(),
    ensures
        total_len(ls.take(k + 1)) == total_len(ls.take(k)) + ls[k].len(),
    decreases k,
{
    if k == 0 {
        assert(ls.take(1).drop_first() =~= Seq::<Seq<char>>::empty());
        assert(ls.take(0) =~= Seq::<Seq<char>>::empty());
    } else {
        lemma_total_len_take(ls.drop_first(), k - 1);
        assert(ls.take(k + 1).drop_first() =~= ls.drop_first().take(k));
        assert(ls.take(k).drop_first() =~= ls.drop_first().take(k - 1));
    }
}

pub(crate) proof fn lemma_total_len_prefix(ls: Seq<Seq<char>>, k: int)
    requires
        0 <= k <= ls.len(),
    ensures
        total_len(ls.take(k)) <= total_len(ls),
    decreases ls.len() - k,
{
    if k < ls.len() {
        lemma_total_len_take(ls, k);
        lemma_total_len_prefix(ls, k + 1);
    } else {
        assert(ls.take(k) =~= ls);
    }
}

pub(crate) proof fn lemma_lines_total(s: Seq<char>, start: int)
    requires
        0 <= start <= s.len(),
    ensures
        total_len(lines_from(s, start)) <= s.len() - start,
    decreases s.len() - start,
{
    if start < s.len() {
        crate::text::lemma_next_newline(s, start);
        let e = crate::text::next_newline(s, start);
        if e < s.len() {
            lemma_lines_total(s, e + 1);
            let ls = lines_from(s, start);
            assert(ls[0] == crate::text::strip_cr(s.subrange(start, e)));
            assert(ls[0].len() <= e - start);
            assert(ls.drop_first() =~= lines_from(s, e + 1));
            assert(total_len(ls) == ls[0].len() + total_len(ls.drop_first()));
        } else {
            let ls = lines_from(s, start);
            assert(ls[0] == crate::text::strip_cr(s.subrange(start, e)));
            assert(ls[0].len() <= e - start);
            assert(ls.drop_first() =~= Seq::<Seq<char>>::empty());
            assert(total_len(ls) == ls[0].len() + total_len(ls.drop_first()));
        }
    }
}

/// Is a state inside a block comment?
pub open spec fn rust_in_block(st: LexicalState) -> bool {
    st is BlockComment
}

pub open spec fn pinker_in_block(st: PinkerState) -> bool {
    st is BlockComment
}

/// The single relevance rule of both dialects: only a blank line, a line
/// that opened and stayed inside a block comment, or a line whose first
/// token opens a line comment from code lose the coverage obligation.
pub open spec fn relevant_spec(line: Seq<char>, opened: bool, still: bool, whole: bool) -> bool {
    !(trim(line).len() == 0) && !(opened && still) && !whole
}

/// Does a line carry a coverage obligation?
pub fn line_is_relevant(
    line: &str,
    opened_inside_block: bool,
    still_inside_block: bool,
    whole_line_comment: bool,
) -> (b: bool)
    ensures
        b == relevant_spec(line@, opened_inside_block, still_inside_block, whole_line_comment),
{
    let v = chars_of(line);
    let t = trimmed(&v, 0, v.len());
    assert(v@.subrange(0, v@.len() as int) =~= v@);
    if t.len() == 0 {
        return false;
    }
    if opened_inside_block && still_inside_block {
        return false;
    }
    !whole_line_comment
}

/// Relevance of each line of a Rust text, the state carried from line to line.
pub open spec fn rust_relevance(ls: Seq<Seq<char>>, st: LexicalState) -> Seq<bool>
    decreases ls.len(),
{
    if ls.len() == 0 {
        Seq::empty()
    } else {
        let b = encode_utf8(ls[0]);
        let (found, st2) = rust_scan(b, first_non_ws_from(b, 0), st, 0);
        seq![relevant_spec(ls[0], rust_in_block(st), rust_in_block(st2), found is Some)]
            + rust_relevance(ls.drop_first(), st2)
    }
}

/// Relevance of each line of a Pinker text.
pub open spec fn pinker_relevance(ls: Seq<Seq<char>>, st: PinkerState) -> Seq<bool>
    decreases ls.len(),
{
    if ls.len() == 0 {
        Seq::empty()
    } else {
        let b = encode_utf8(ls[0]);
        let (found, st2) = pinker_scan(b, first_non_ws_from(b, 0), st, 0);
        seq![relevant_spec(ls[0], pinker_in_block(st), pinker_in_block(st2), found is Some)]
            + pinker_relevance(ls.drop_first(), st2)
    }
}

/// Lexical dialect used to tell a real marker from text that only looks
/// like one. Each root declares its own.
#[derive(Debug, Clone, Copy, PartialEq, Eq, Structural)]
pub enum MarkerDialect {
    /// `.rs` sources: normal and byte strings, raw strings, character literals.
    Rust,
    /// `.pink` sources: normal, triple (`"""`) and interpolated (`$"`) strings.
    Pinker,
}

/// Texts small enough that no position or nesting counter can overflow.
pub open spec fn text_fits(text: Seq<char>) -> bool {
    text.len() < usize::MAX / 16
}

/// Decides, line by line, whether a line carries a coverage obligation,
/// conservatively: only blank lines and whole-line comments leave it. Index
/// 0 is line 1; the length is the number of lines of `str::lines`.
pub fn relevant_source_lines(text: &str, dialect: MarkerDialect) -> (r: Vec<bool>)
    requires
        text_fits(text@),
    ensures
        dialect == MarkerDialect::Rust ==> r@ == rust_relevance(lines(text@), LexicalState::Code),
        dialect == MarkerDialect::Pinker ==> r@ == pinker_relevance(
            lines(text@),
            PinkerState::Code,
        ),
{
    let chars = chars_of(text);
    let ls = split_lines(&chars);
    let ghost all = lines(text@);
    proof {
        lemma_lines_total(text@, 0);
    }
    let mut out: Vec<bool> = Vec::new();
    let mut rst = LexicalState::Code;
    let mut pst = PinkerState::Code;
    let mut k: usize = 0;
    assert(all.skip(0) =~= all);
    while k < ls.len()
        invariant
            all == lines(text@),
            ls@.len() == all.len(),
            forall|j: int| 0 <= j < ls@.len() ==> #[trigger] ls@[j]@ == all[j],
            text_fits(text@),
            total_len(all) <= text@.len(),
            k <= ls@.len(),
            rust_state_ok(rst),
            pinker_state_ok(pst),
            rust_depth(rst) <= 4 * total_len(all.take(k as int)),
            pinker_depth(pst) <= 4 * total_len(all.take(k as int)),
            dialect == MarkerDialect::Rust ==> rust_relevance(all, LexicalState::Code) == out@
                + rust_relevance(all.skip(k as int), rst),
            dialect == MarkerDialect::Pinker ==> pinker_relevance(all, PinkerState::Code) == out@
                + pinker_relevance(all.skip(k as int), pst),
        decreases ls.len() - k,
    {
        let line = string_from(ls[k].as_slice());
        let l: &str = line.as_str();
        proof {
            lemma_total_len_take(all, k as int);
            lemma_total_len_prefix(all, k + 1);
            lemma_encode_len(l@);
            assert(all.skip(k as int)[0] == all[k as int]);
            assert(all.skip(k as int).drop_first() =~= all.skip(k + 1));
        }
        let opened_r = matches!(rst, LexicalState::BlockComment(_));
        let opened_p = matches!(pst, PinkerState::BlockComment(_));
        match dialect {
            MarkerDialect::Rust => {
                let whole = marker_comment(l, &mut rst).is_some();
                let still = matches!(rst, LexicalState::BlockComment(_));
                out.push(line_is_relevant(l, opened_r, still, whole));
            },
            MarkerDialect::Pinker => {
                let whole = marker_comment_pinker(l, &mut pst).is_some();
                let still = matches!(pst, PinkerState::BlockComment(_));
                out.push(line_is_relevant(l, opened_p, still, whole));
            },
        }
        k = k + 1;
    }
    assert(all.skip(k as int) =~= Seq::<Seq<char>>::empty());
    out
}


// ---------------------------------------------------------------------------
// Marker syntax.
// ---------------------------------------------------------------------------

/// The text of a real line comment after `//`, refusing the doc-comment
/// variants `///` and `//!`, with leading whitespace removed.
pub open spec fn comment_body(t: Seq<char>) -> Option<Seq<char>> {
    if t.len() < 2 || t[0] != '/' || t[1] != '/' {
        None
    } else if t.len() > 2 && (t[2] == '/' || t[2] == '!') {
        None
    } else {
        Some(trim_start(t.skip(2)))
    }
}

/// The key after a marker (`@pinker-nav:start`/`:end`) in a `//` comment:
/// the marker must be followed by whitespace or the end, and the key is the
/// trimmed rest, never empty.
pub open spec fn parse_marker_spec(t: Seq<char>, marker: Seq<char>) -> Option<Seq<char>> {
    match comment_body(t) {
        None => None,
        Some(mt) => if !has_prefix(mt, marker) {
            None
        } else {
            let after = mt.skip(marker.len() as int);
            if after.len() > 0 && !is_ws(after[0]) {
                None
            } else if trim(after).len() == 0 {
                None
            } else {
                Some(trim(after))
            }
        },
    }
}

/// Position of the comment body: `a` such that `comment_body(t)` is
/// `t[a..]`, or `None`.
fn comment_start(t: &Vec<char>) -> (r: Option<usize>)
    ensures
        r is None <==> comment_body(t@) is None,
        r matches Some(a) ==> a <= t@.len() && comment_body(t@) == Some(t@.subrange(a as int, t@.len() as int)),
{
    if t.len() < 2 || t[0] != '/' || t[1] != '/' {
        return None;
    }
    if t.len() > 2 && (t[2] == '/' || t[2] == '!') {
        return None;
    }
    let a = skip_ws_sub(t, 2, t.len());
    assert(t@.skip(2) =~= t@.subrange(2, t@.len() as int));
    Some(a)
}

/// Extracts the key after a marker in a line that must be a `//` comment.
pub fn parse_marker(trimmed: &str, marker: &str) -> (r: Option<String>)
    ensures
        r is None <==> parse_marker_spec(trimmed@, marker@) is None,
        r matches Some(k) ==> parse_marker_spec(trimmed@, marker@) == Some(k@),
{
    let t = chars_of(trimmed);
    let m = chars_of(marker);
    let a = match comment_start(&t) {
        Some(a) => a,
        None => return None,
    };
    let ghost mt = t@.subrange(a as int, t@.len() as int);
    if !matches_at(&t, a, &m) {
        proof {
            if has_prefix(mt, m@) {
                assert(t@.subrange(a as int, a + m@.len()) =~= mt.subrange(0, m@.len() as int));
            }
        }
        return None;
    }
    assert(t@.subrange(a as int, a + m@.len()) =~= mt.subrange(0, m@.len() as int));
    let b = a + m.len();
    assert(mt.skip(m@.len() as int) =~= t@.subrange(b as int, t@.len() as int));
    if b < t.len() && !is_whitespace(t[b]) {
        return None;
    }
    let key = crate::text::trimmed(&t, b, t.len());
    if key.len() == 0 {
        return None;
    }
    Some(string_from(&key))
}

/// Index of the first whitespace character of `s`, or `s.len()`.
pub open spec fn first_ws(s: Seq<char>, i: int) -> int
    decreases s.len() - i,
{
    if i >= s.len() {
        s.len() as int
    } else if is_ws(s[i]) {
        i
    } else {
        first_ws(s, i + 1)
    }
}

/// A metadata line `// @pinker-nav:<field> <value>`: the field up to the
/// first whitespace, the trimmed rest as value. `start` and `end` are
/// markers, not fields. Unknown fields are still consumed as metadata.
pub open spec fn parse_meta_spec(t: Seq<char>) -> Option<(Seq<char>, Seq<char>)> {
    match comment_body(t) {
        None => None,
        Some(mt) => if !has_prefix(mt, FIELD_PREFIX@) {
            None
        } else {
            let rest = mt.skip(FIELD_PREFIX@.len() as int);
            let w = first_ws(rest, 0);
            let field = trim(rest.take(w));
            let value = if w < rest.len() {
                trim(rest.skip(w + 1))
            } else {
                Seq::empty()
            };
            if field == START_FIELD() || field == END_FIELD() {
                None
            } else {
                Some((field, value))
            }
        },
    }
}

pub open spec fn START_FIELD() -> Seq<char> {
    seq!['s', 't', 'a', 'r', 't']
}

pub open spec fn END_FIELD() -> Seq<char> {
    seq!['e', 'n', 'd']
}

/// Separates the field and the value of a metadata line.
pub fn parse_meta(trimmed: &str) -> (r: Option<(String, String)>)
    ensures
        r is None <==> parse_meta_spec(trimmed@) is None,
        r matches Some(fv) ==> parse_meta_spec(trimmed@) == Some((fv.0@, fv.1@)),
{
    let t = chars_of(trimmed);
    let fp = chars_of(FIELD_PREFIX);
    let a = match comment_start(&t) {
        Some(a) => a,
        None => return None,
    };
    let ghost mt = t@.subrange(a as int, t@.len() as int);
    if !matches_at(&t, a, &fp) {
        proof {
            if has_prefix(mt, fp@) {
                assert(t@.subrange(a as int, a + fp@.len()) =~= mt.subrange(0, fp@.len() as int));
            }
        }
        return None;
    }
    assert(t@.subrange(a as int, a + fp@.len()) =~= mt.subrange(0, fp@.len() as int));
    let b = a + fp.len();
    let ghost rest = mt.skip(fp@.len() as int);
    assert(rest =~= t@.subrange(b as int, t@.len() as int));
    let mut w = b;
    while w < t.len() && !is_whitespace(t[w])
        invariant
            b <= w <= t@.len(),
            rest == t@.subrange(b as int, t@.len() as int),
            first_ws(rest, 0) == first_ws(rest, w - b),
        decreases t.len() - w,
    {
        w = w + 1;
    }
    assert(first_ws(rest, 0) == w - b);
    let field = crate::text::trimmed(&t, b, w);
    assert(rest.take(w - b) =~= t@.subrange(b as int, w as int));
    let value = if w < t.len() {
        assert(rest.skip(w - b + 1) =~= t@.subrange(w + 1, t@.len() as int));
        crate::text::trimmed(&t, w + 1, t.len())
    } else {
        Vec::new()
    };
    let st = chars_of("start");
    let en = chars_of("end");
    proof {
        reveal_strlit("start");
        reveal_strlit("end");
        assert(st@ =~= START_FIELD());
        assert(en@ =~= END_FIELD());
    }
    if vec_eq(&field, &st) || vec_eq(&field, &en) {
        return None;
    }
    proof {
        if w >= t.len() {
            assert(value@ =~= Seq::<char>::empty());
        }
    }
    Some((string_from(&field), string_from(&value)))
}

pub open spec fn key_alnum(c: char) -> bool {
    ('a' <= c && c <= 'z') || ('0' <= c && c <= '9')
}

pub open spec fn key_sep(c: char) -> bool {
    c == '.' || c == '_' || c == '-'
}

/// The closed key format `[a-z0-9]+([._-][a-z0-9]+)*`.
pub open spec fn valid_key_spec(k: Seq<char>) -> bool {
    &&& k.len() > 0
    &&& key_alnum(k[0])
    &&& key_alnum(k.last())
    &&& forall|i: int| 0 <= i < k.len() ==> key_alnum(#[trigger] k[i]) || key_sep(k[i])
    &&& forall|i: int| 0 <= i < k.len() - 1 ==> !(key_sep(#[trigger] k[i]) && key_sep(k[i + 1]))
}

fn key_alnum_exec(c: char) -> (b: bool)
    ensures
        b == key_alnum(c),
{
    ('a' <= c && c <= 'z') || ('0' <= c && c <= '9')
}

/// Validates the closed region key format.
pub fn valid_key(key: &str) -> (b: bool)
    ensures
        b == valid_key_spec(key@),
{
    let k = chars_of(key);
    valid_key_chars(&k)
}

pub fn valid_key_chars(k: &Vec<char>) -> (b: bool)
    ensures
        b == valid_key_spec(k@),
{
    if k.len() == 0 {
        return false;
    }
    if !key_alnum_exec(k[0]) || !key_alnum_exec(k[k.len() - 1]) {
        return false;
    }
    let mut prev_sep = false;
    let mut i: usize = 0;
    while i < k.len()
        invariant
            0 < k@.len(),
            i <= k@.len(),
            forall|j: int| 0 <= j < i ==> key_alnum(#[trigger] k@[j]) || key_sep(k@[j]),
            forall|j: int| 0 <= j < i - 1 ==> !(key_sep(#[trigger] k@[j]) && key_sep(k@[j + 1])),
            i > 0 ==> prev_sep == key_sep(k@[i - 1]),
            i == 0 ==> !prev_sep,
        decreases k.len() - i,
    {
        let c = k[i];
        if key_alnum_exec(c) {
            prev_sep = false;
        } else if c == '.' || c == '_' || c == '-' {
            if prev_sep {
                return false;
            }
            prev_sep = true;
        } else {
            return false;
        }
        i = i + 1;
    }
    true
}


// ---------------------------------------------------------------------------
// Region model and symbol metadata.
// ---------------------------------------------------------------------------

/// Structural category published explicitly by a region.
#[derive(Debug, Clone, Copy, PartialEq, Eq, PartialOrd, Ord, Structural)]
pub enum SymbolKind {
    RustFunction,
    RustType,
    PinkerFunction,
    Unknown,
}

pub open spec fn kind_str(k: SymbolKind) -> Seq<char> {
    match k {
        SymbolKind::RustFunction => seq!['r', 'u', 's', 't', '-', 'f', 'u', 'n', 'c', 't', 'i', 'o', 'n'],
        SymbolKind::RustType => seq!['r', 'u', 's', 't', '-', 't', 'y', 'p', 'e'],
        SymbolKind::PinkerFunction => seq!['p', 'i', 'n', 'k', 'e', 'r', '-', 'f', 'u', 'n', 'c', 't', 'i', 'o', 'n'],
        SymbolKind::Unknown => seq!['U', 'N', 'K', 'N', 'O', 'W', 'N'],
    }
}

impl SymbolKind {
    pub fn as_str(self) -> (s: &'static str)
        ensures
            s@ == kind_str(self),
    {
        match self {
            SymbolKind::RustFunction => {
                proof { reveal_strlit("rust-function"); }
                "rust-function"
            },
            SymbolKind::RustType => {
                proof { reveal_strlit("rust-type"); }
                "rust-type"
            },
            SymbolKind::PinkerFunction => {
                proof { reveal_strlit("pinker-function"); }
                "pinker-function"
            },
            SymbolKind::Unknown => {
                proof { reveal_strlit("UNKNOWN"); }
                "UNKNOWN"
            },
        }
    }
}

/// Role of the region with respect to an explicitly identified symbol.
#[derive(Debug, Clone, Copy, PartialEq, Eq, PartialOrd, Ord, Structural)]
pub enum SymbolRole {
    Declaration,
    Implementation,
}

pub open spec fn role_str(r: SymbolRole) -> Seq<char> {
    match r {
        SymbolRole::Declaration => seq!['d', 'e', 'c', 'l', 'a', 'r', 'a', 't', 'i', 'o', 'n'],
        SymbolRole::Implementation => seq!['i', 'm', 'p', 'l', 'e', 'm', 'e', 'n', 't', 'a', 't', 'i', 'o', 'n'],
    }
}

impl SymbolRole {
    pub fn as_str(self) -> (s: &'static str)
        ensures
            s@ == role_str(self),
    {
        match self {
            SymbolRole::Declaration => {
                proof { reveal_strlit("declaration"); }
                "declaration"
            },
            SymbolRole::Implementation => {
                proof { reveal_strlit("implementation"); }
                "implementation"
            },
        }
    }
}

/// The canonical binding `identity | name | kind | role` kept in the marker.
#[derive(Debug, Clone, PartialEq, Eq, PartialOrd, Ord)]
pub struct RegionSymbol {
    pub identity: String,
    pub name: String,
    pub kind: SymbolKind,
    pub role: SymbolRole,
}

/// Explicit documentation link `identity | document id`.
#[derive(Debug, Clone, PartialEq, Eq, PartialOrd, Ord)]
pub struct SymbolDocLink {
    pub identity: String,
    pub document: String,
}

pub open spec fn ascii_alpha(c: char) -> bool {
    ('a' <= c && c <= 'z') || ('A' <= c && c <= 'Z')
}

pub open spec fn ascii_alnum(c: char) -> bool {
    ascii_alpha(c) || ('0' <= c && c <= '9')
}

/// An identifier: an ASCII letter or `_`, then ASCII letters, digits or `_`.
pub open spec fn symbol_name_spec(v: Seq<char>) -> bool {
    &&& v.len() > 0
    &&& (ascii_alpha(v[0]) || v[0] == '_')
    &&& forall|i: int| 1 <= i < v.len() ==> ascii_alnum(#[trigger] v[i]) || v[i] == '_'
}

pub open spec fn path_sep() -> Seq<char> {
    seq![':', ':']
}

/// A qualified identity: at least two `::`-separated identifiers.
pub open spec fn symbol_identity_spec(v: Seq<char>) -> bool {
    let segments = split(v, path_sep());
    segments.len() >= 2 && forall|i: int| 0 <= i < segments.len() ==> symbol_name_spec(
        #[trigger] segments[i],
    )
}

fn symbol_name_chars(v: &Vec<char>) -> (b: bool)
    ensures
        b == symbol_name_spec(v@),
{
    if v.len() == 0 {
        return false;
    }
    let c0 = v[0];
    if !(('a' <= c0 && c0 <= 'z') || ('A' <= c0 && c0 <= 'Z') || c0 == '_') {
        return false;
    }
    let mut i: usize = 1;
    while i < v.len()
        invariant
            1 <= i <= v@.len(),
            forall|j: int| 1 <= j < i ==> ascii_alnum(#[trigger] v@[j]) || v@[j] == '_',
        decreases v.len() - i,
    {
        let c = v[i];
        if !(('a' <= c && c <= 'z') || ('A' <= c && c <= 'Z') || ('0' <= c && c <= '9') || c
            == '_') {
            return false;
        }
        i = i + 1;
    }
    true
}

/// A name is accepted as is when it is an identifier.
pub fn parse_symbol_name(value: &str) -> (r: Option<String>)
    ensures
        r is Some <==> symbol_name_spec(value@),
        r matches Some(n) ==> n@ == value@,
{
    let v = chars_of(value);
    if symbol_name_chars(&v) {
        Some(string_from(&v))
    } else {
        None
    }
}

fn symbol_identity_chars(v: &Vec<char>) -> (b: bool)
    ensures
        b == symbol_identity_spec(v@),
{
    let mut sep: Vec<char> = Vec::new();
    sep.push(':');
    sep.push(':');
    assert(sep@ =~= path_sep());
    let segments = split_vec(v, &sep);
    if segments.len() < 2 {
        return false;
    }
    let mut i: usize = 0;
    while i < segments.len()
        invariant
            i <= segments@.len(),
            segments@.len() == split(v@, path_sep()).len(),
            forall|k: int| 0 <= k < segments@.len() ==> #[trigger] segments@[k]@ == split(v@, path_sep())[k],
            forall|k: int| 0 <= k < i ==> symbol_name_spec(#[trigger] split(v@, path_sep())[k]),
        decreases segments.len() - i,
    {
        if !symbol_name_chars(&segments[i]) {
            assert(segments@[i as int]@ == split(v@, path_sep())[i as int]);
            return false;
        }
        i = i + 1;
    }
    true
}

/// A qualified identity is accepted as is.
pub fn parse_symbol_identity(value: &str) -> (r: Option<String>)
    ensures
        r is Some <==> symbol_identity_spec(value@),
        r matches Some(n) ==> n@ == value@,
{
    let v = chars_of(value);
    if symbol_identity_chars(&v) {
        Some(string_from(&v))
    } else {
        None
    }
}

pub open spec fn bar() -> Seq<char> {
    seq!['|']
}

/// The `|`-separated parts of a binding, each trimmed.
pub open spec fn binding_parts(v: Seq<char>) -> Seq<Seq<char>> {
    split(v, bar()).map_values(|p: Seq<char>| trim(p))
}

pub open spec fn kind_of(s: Seq<char>) -> Option<SymbolKind> {
    if s == kind_str(SymbolKind::RustFunction) {
        Some(SymbolKind::RustFunction)
    } else if s == kind_str(SymbolKind::RustType) {
        Some(SymbolKind::RustType)
    } else if s == kind_str(SymbolKind::PinkerFunction) {
        Some(SymbolKind::PinkerFunction)
    } else if s == kind_str(SymbolKind::Unknown) {
        Some(SymbolKind::Unknown)
    } else {
        None
    }
}

pub open spec fn role_of(s: Seq<char>) -> Option<SymbolRole> {
    if s == role_str(SymbolRole::Declaration) {
        Some(SymbolRole::Declaration)
    } else if s == role_str(SymbolRole::Implementation) {
        Some(SymbolRole::Implementation)
    } else {
        None
    }
}

/// A symbol binding is well formed.
pub open spec fn symbol_ok(v: Seq<char>) -> bool {
    let p = binding_parts(v);
    &&& p.len() == 4
    &&& symbol_identity_spec(p[0])
    &&& symbol_name_spec(p[1])
    &&& kind_of(p[2]) is Some
    &&& role_of(p[3]) is Some
}

/// The symbol a well-formed binding declares.
pub open spec fn symbol_matches(sym: RegionSymbol, v: Seq<char>) -> bool {
    let p = binding_parts(v);
    &&& sym.identity@ == p[0]
    &&& sym.name@ == p[1]
    &&& kind_of(p[2]) == Some(sym.kind)
    &&& role_of(p[3]) == Some(sym.role)
}

fn trimmed_parts(v: &Vec<char>) -> (parts: Vec<Vec<char>>)
    ensures
        parts@.len() == binding_parts(v@).len(),
        forall|k: int| 0 <= k < parts@.len() ==> #[trigger] parts@[k]@ == binding_parts(v@)[k],
{
    let sep = one_char('|');
    let raw = split_vec(v, &sep);
    let mut parts: Vec<Vec<char>> = Vec::new();
    let mut i: usize = 0;
    while i < raw.len()
        invariant
            i <= raw@.len(),
            sep@ == bar(),
            raw@.len() == split(v@, bar()).len(),
            forall|k: int| 0 <= k < raw@.len() ==> #[trigger] raw@[k]@ == split(v@, bar())[k],
            parts@.len() == i,
            forall|k: int| 0 <= k < i ==> #[trigger] parts@[k]@ == binding_parts(v@)[k],
        decreases raw.len() - i,
    {
        let t = crate::text::trimmed(&raw[i], 0, raw[i].len());
        assert(raw@[i as int]@.subrange(0, raw@[i as int]@.len() as int) =~= raw@[i as int]@);
        parts.push(t);
        i = i + 1;
    }
    parts
}

fn kind_from(s: &Vec<char>) -> (r: Option<SymbolKind>)
    ensures
        r == kind_of(s@),
{
    let a = chars_of("rust-function");
    let b = chars_of("rust-type");
    let c = chars_of("pinker-function");
    let d = chars_of("UNKNOWN");
    proof {
        reveal_strlit("rust-function");
        reveal_strlit("rust-type");
        reveal_strlit("pinker-function");
        reveal_strlit("UNKNOWN");
        assert(a@ =~= kind_str(SymbolKind::RustFunction));
        assert(b@ =~= kind_str(SymbolKind::RustType));
        assert(c@ =~= kind_str(SymbolKind::PinkerFunction));
        assert(d@ =~= kind_str(SymbolKind::Unknown));
    }
    if vec_eq(s, &a) {
        Some(SymbolKind::RustFunction)
    } else if vec_eq(s, &b) {
        Some(SymbolKind::RustType)
    } else if vec_eq(s, &c) {
        Some(SymbolKind::PinkerFunction)
    } else if vec_eq(s, &d) {
        Some(SymbolKind::Unknown)
    } else {
        None
    }
}

fn role_from(s: &Vec<char>) -> (r: Option<SymbolRole>)
    ensures
        r == role_of(s@),
{
    let a = chars_of("declaration");
    let b = chars_of("implementation");
    proof {
        reveal_strlit("declaration");
        reveal_strlit("implementation");
        assert(a@ =~= role_str(SymbolRole::Declaration));
        assert(b@ =~= role_str(SymbolRole::Implementation));
    }
    if vec_eq(s, &a) {
        Some(SymbolRole::Declaration)
    } else if vec_eq(s, &b) {
        Some(SymbolRole::Implementation)
    } else {
        None
    }
}

/// Parses a symbol binding `identity | name | kind | role`.
pub fn parse_symbol(value: &str) -> (r: Option<RegionSymbol>)
    ensures
        r is Some <==> symbol_ok(value@),
        r matches Some(sym) ==> symbol_matches(sym, value@),
{
    let v = chars_of(value);
    let parts = trimmed_parts(&v);
    if parts.len() != 4 {
        return None;
    }
    if !symbol_identity_chars(&parts[0]) || !symbol_name_chars(&parts[1]) {
        return None;
    }
    let kind = match kind_from(&parts[2]) {
        Some(k) => k,
        None => return None,
    };
    let role = match role_from(&parts[3]) {
        Some(r) => r,
        None => return None,
    };
    Some(RegionSymbol { identity: string_from(&parts[0]), name: string_from(&parts[1]), kind, role })
}

/// A documentation link `identity | document` is well formed.
pub open spec fn symbol_doc_ok(v: Seq<char>) -> bool {
    let p = binding_parts(v);
    p.len() == 2 && valid_key_spec(p[1]) && symbol_identity_spec(p[0])
}

/// Parses a documentation link `identity | document key`.
pub fn parse_symbol_doc(value: &str) -> (r: Option<SymbolDocLink>)
    ensures
        r is Some <==> symbol_doc_ok(value@),
        r matches Some(l) ==> l.identity@ == binding_parts(value@)[0] && l.document@
            == binding_parts(value@)[1],
{
    let v = chars_of(value);
    let parts = trimmed_parts(&v);
    if parts.len() != 2 || !valid_key_chars(&parts[1]) {
        return None;
    }
    if !symbol_identity_chars(&parts[0]) {
        return None;
    }
    Some(SymbolDocLink { identity: string_from(&parts[0]), document: string_from(&parts[1]) })
}


/// A catalogued region of code (a marker pair).
#[derive(Debug, Clone, PartialEq, Eq)]
pub struct CodeRegion {
    pub key: String,
    pub kind: String,
    pub domain: Option<String>,
    pub layer: Option<String>,
    pub phase: Option<u64>,
    pub file: String,
    pub start_marker: usize,
    pub content_start: usize,
    pub content_end: usize,
    pub end_marker: usize,
    pub summary: String,
    pub hash: String,
    pub status: String,
    pub symbols: Vec<RegionSymbol>,
    pub related_symbols: Vec<String>,
    pub test_for: Vec<String>,
    pub symbol_docs: Vec<SymbolDocLink>,
}

/// Divergences found when validating the code cartography.
#[derive(Debug, Clone, PartialEq, Eq)]
pub enum NavVerifyError {
    DuplicateKey { key: String, files: Vec<String> },
    StartWithoutEnd { key: String, file: String, line: usize },
    EndWithoutStart { key: String, file: String, line: usize },
    KeyMismatch { start: String, end: String, file: String },
    EmptyRange { key: String, file: String },
    InvalidKey { key: String, file: String, line: usize },
    Overlap { outer: String, inner: String, file: String },
    MalformedMeta { key: String, file: String, field: String },
    ConflictingSymbolIdentity { identity: String, regions: Vec<String> },
    MissingSymbolTarget { region: String, field: String, identity: String },
    InvalidTestLink { region: String, identity: String, layer: Option<String> },
    IndexOutOfDate { path: String },
}

/// In-memory code index: the regions found and the problems met while
/// scanning.
#[derive(Debug, Clone, Default)]
pub struct CodeIndex {
    pub regions: Vec<CodeRegion>,
    pub scan_problems: Vec<NavVerifyError>,
}

/// Index of the first region with the given key.
pub open spec fn first_with_key(rs: Seq<CodeRegion>, key: Seq<char>) -> Option<int> {
    if exists|i: int| 0 <= i < rs.len() && (#[trigger] rs[i]).key@ == key {
        Some(choose|i: int|
            0 <= i < rs.len() && (#[trigger] rs[i]).key@ == key && forall|j: int|
                0 <= j < i ==> (#[trigger] rs[j]).key@ != key)
    } else {
        None
    }
}

/// The first region with the given key.
pub fn find_region<'a>(regions: &'a Vec<CodeRegion>, key: &str) -> (r: Option<&'a CodeRegion>)
    ensures
        r is None <==> (forall|i: int| 0 <= i < regions@.len() ==> (#[trigger] regions@[i]).key@ != key@),
        r matches Some(reg) ==> exists|i: int|
            0 <= i < regions@.len() && *reg == regions@[i] && reg.key@ == key@ && forall|j: int|
                0 <= j < i ==> (#[trigger] regions@[j]).key@ != key@,
{
    let k = chars_of(key);
    let mut i: usize = 0;
    while i < regions.len()
        invariant
            i <= regions@.len(),
            k@ == key@,
            forall|j: int| 0 <= j < i ==> (#[trigger] regions@[j]).key@ != key@,
        decreases regions.len() - i,
    {
        let rk = chars_of(regions[i].key.as_str());
        if vec_eq(&rk, &k) {
            return Some(&regions[i]);
        }
        i = i + 1;
    }
    None
}

/// The region is listed under a selector: its layer or its domain equals it.
pub open spec fn listed_under(r: CodeRegion, selector: Seq<char>) -> bool {
    (r.layer matches Some(l) && l@ == selector) || (r.domain matches Some(d) && d@ == selector)
}

fn opt_eq(o: &Option<String>, k: &Vec<char>) -> (b: bool)
    ensures
        b == (o matches Some(v) && v@ == k@),
{
    match o {
        Some(v) => {
            let c = chars_of(v.as_str());
            vec_eq(&c, k)
        },
        None => false,
    }
}

/// The regions of a layer or domain, in catalogue order.
pub fn list_regions<'a>(regions: &'a Vec<CodeRegion>, selector: &str) -> (r: Vec<&'a CodeRegion>)
    ensures
        r@.len() <= regions@.len(),
        r@.map_values(|x: &CodeRegion| *x) == regions@.filter(|x: CodeRegion| listed_under(x, selector@)),
{
    let k = chars_of(selector);
    let mut out: Vec<&'a CodeRegion> = Vec::new();
    let mut i: usize = 0;
    while i < regions.len()
        invariant
            i <= regions@.len(),
            k@ == selector@,
            out@.len() <= i,
            out@.map_values(|x: &CodeRegion| *x) == regions@.take(i as int).filter(|x: CodeRegion| listed_under(x, selector@)),
        decreases regions.len() - i,
    {
        proof {
            reveal_with_fuel(Seq::filter, 1);
            assert(regions@.take(i + 1).drop_last() =~= regions@.take(i as int));
        }
        let r = &regions[i];
        if opt_eq(&r.layer, &k) || opt_eq(&r.domain, &k) {
            out.push(r);
            proof {
                assert(out@.map_values(|x: &CodeRegion| *x) =~= regions@.take(i as int).filter(|x: CodeRegion| listed_under(x, selector@)).push(regions@[i as int]));
            }
        } else {
            proof {
                assert(out@.map_values(|x: &CodeRegion| *x) =~= regions@.take(i + 1).filter(|x: CodeRegion| listed_under(x, selector@)));
            }
        }
        i = i + 1;
    }
    assert(regions@.take(regions@.len() as int) =~= regions@);
    out
}

impl CodeIndex {
    /// The first region with the given key.
    pub fn region(&self, key: &str) -> (r: Option<&CodeRegion>)
        ensures
            r is None <==> (forall|i: int| 0 <= i < self.regions@.len() ==> (#[trigger] self.regions@[i]).key@ != key@),
            r matches Some(reg) ==> exists|i: int|
                0 <= i < self.regions@.len() && *reg == self.regions@[i] && reg.key@ == key@ && forall|j: int|
                    0 <= j < i ==> (#[trigger] self.regions@[j]).key@ != key@,
    {
        find_region(&self.regions, key)
    }

    /// Regions of a layer or domain.
    pub fn list(&self, selector: &str) -> (r: Vec<&CodeRegion>)
        ensures
            r@.map_values(|x: &CodeRegion| *x) == self.regions@.filter(|x: CodeRegion| listed_under(x, selector@)),
    {
        list_regions(&self.regions, selector)
    }
}


// ---------------------------------------------------------------------------
// Hashing and region checks.
// ---------------------------------------------------------------------------

/// FNV-1a 64 offset basis.
pub const FNV_OFFSET: u64 = 0xcbf2_9ce4_8422_2325;

/// FNV-1a 64 prime.
pub const FNV_PRIME: u64 = 0x0000_0100_0000_01b3;

/// FNV-1a 64 over a byte sequence.
pub open spec fn fnv_fold(bytes: Seq<u8>) -> u64
    decreases bytes.len(),
{
    if bytes.len() == 0 {
        FNV_OFFSET
    } else {
        (fnv_fold(bytes.drop_last()) ^ (bytes.last() as u64)).wrapping_mul(FNV_PRIME)
    }
}

/// FNV-1a 64 of a byte slice.
pub fn fnv_bytes(bytes: &[u8]) -> (h: u64)
    ensures
        h == fnv_fold(bytes@),
{
    let mut hash: u64 = FNV_OFFSET;
    let mut i: usize = 0;
    while i < bytes.len()
        invariant
            i <= bytes@.len(),
            hash == fnv_fold(bytes@.take(i as int)),
        decreases bytes.len() - i,
    {
        assert(bytes@.take(i + 1).drop_last() =~= bytes@.take(i as int));
        hash = (hash ^ (bytes[i] as u64)).wrapping_mul(FNV_PRIME);
        i = i + 1;
    }
    assert(bytes@.take(bytes@.len() as int) =~= bytes@);
    hash
}

/// `fnv1a64:` and 16 lower-case hexadecimal digits.
pub open spec fn fnv_canonical(h: u64) -> Seq<char> {
    seq!['f', 'n', 'v', '1', 'a', '6', '4', ':'] + hex_fixed(h as nat, 16)
}

/// Appends [`fnv_canonical`]`(h)`.
pub fn push_fnv_canonical(out: &mut Vec<char>, h: u64)
    ensures
        final(out)@ == old(out)@ + fnv_canonical(h),
{
    out.push('f');
    out.push('n');
    out.push('v');
    out.push('1');
    out.push('a');
    out.push('6');
    out.push('4');
    out.push(':');
    push_hex_fixed(out, h, 16);
    assert(final(out)@ =~= old(out)@ + fnv_canonical(h));
}

/// The region hash of a text: FNV-1a 64 of its UTF-8 bytes, canonical form.
pub fn fnv1a64(data: &str) -> (s: String)
    ensures
        s@ == fnv_canonical(fnv_fold(encode_utf8(data@))),
{
    let h = fnv_bytes(data.as_bytes());
    let mut out: Vec<char> = Vec::new();
    push_fnv_canonical(&mut out, h);
    string_from(&out)
}

/// Lines joined by `\n`.
pub open spec fn join_nl(ls: Seq<Seq<char>>) -> Seq<char>
    decreases ls.len(),
{
    if ls.len() == 0 {
        Seq::empty()
    } else if ls.len() == 1 {
        ls[0]
    } else {
        join_nl(ls.drop_last()) + seq!['\n'] + ls.last()
    }
}

/// The lines that are not blank, in order.
pub open spec fn non_blank(ls: Seq<Seq<char>>) -> Seq<Seq<char>> {
    ls.filter(|l: Seq<char>| trim(l).len() > 0)
}

/// The hash of a region body: the non-blank lines joined by `\n`.
pub open spec fn body_hash(ls: Seq<Seq<char>>) -> Seq<char> {
    fnv_canonical(fnv_fold(encode_utf8(join_nl(non_blank(ls)))))
}

pub(crate) fn is_blank(l: &Vec<char>) -> (b: bool)
    ensures
        b == (trim(l@).len() == 0),
{
    let t = crate::text::trimmed(l, 0, l.len());
    assert(l@.subrange(0, l@.len() as int) =~= l@);
    t.len() == 0
}

/// Hash of the non-blank lines of a body.
pub fn body_hash_of(ls: &Vec<Vec<char>>) -> (s: String)
    ensures
        s@ == body_hash(rows(ls@)),
{
    let ghost all = rows(ls@);
    let mut joined: Vec<char> = Vec::new();
    let mut count: usize = 0;
    let mut i: usize = 0;
    while i < ls.len()
        invariant
            i <= ls@.len(),
            all == rows(ls@),
            count == non_blank(all.take(i as int)).len(),
            count <= i,
            joined@ == join_nl(non_blank(all.take(i as int))),
        decreases ls.len() - i,
    {
        proof {
            reveal_with_fuel(Seq::filter, 1);
            assert(all.take(i + 1).drop_last() =~= all.take(i as int));
            assert(all[i as int] == ls@[i as int]@);
        }
        if !is_blank(&ls[i]) {
            let ghost prev = non_blank(all.take(i as int));
            proof {
                assert(non_blank(all.take(i + 1)) == prev.push(ls@[i as int]@));
                assert(prev.push(ls@[i as int]@).drop_last() =~= prev);
            }
            if count > 0 {
                joined.push('\n');
            }
            push_all(&mut joined, &ls[i]);
            proof {
                if count == 0 {
                    assert(joined@ =~= join_nl(prev.push(ls@[i as int]@)));
                } else {
                    assert(joined@ =~= join_nl(prev.push(ls@[i as int]@)));
                }
            }
            count = count + 1;
        }
        i = i + 1;
    }
    assert(all.take(ls@.len() as int) =~= all);
    let text = string_from(&joined);
    fnv1a64(text.as_str())
}


/// Result of validating a region while extracting its content.
#[derive(Debug, Clone, PartialEq, Eq)]
pub enum RegionCheck {
    /// The markers still delimit the region and the content hash matches.
    Intact,
    /// The markers no longer delimit the interval with the expected key.
    AnchorDrift,
    /// The content changed: the catalogue hash differs from the recomputed one.
    HashMismatch { expected: String, found: String },
}

/// The content interval `[content_start, content_end]` can be cut from a
/// text of `n` lines without an inverted range.
pub open spec fn content_range_ok(r: CodeRegion, n: int) -> bool {
    r.content_start == 0 || r.content_end == 0 || r.content_end > n || r.content_start
        <= r.content_end + 1
}

/// The content lines of a region: lines `content_start..=content_end`
/// (1-based), or none when the interval is unset or past the end.
pub open spec fn region_content(ls: Seq<Seq<char>>, r: CodeRegion) -> Seq<Seq<char>> {
    if r.content_start == 0 || r.content_end == 0 || r.content_end > ls.len() {
        Seq::empty()
    } else {
        ls.subrange(r.content_start - 1, r.content_end as int)
    }
}

fn content_of(ls: &Vec<Vec<char>>, region: &CodeRegion) -> (out: Vec<Vec<char>>)
    requires
        content_range_ok(*region, ls@.len() as int),
    ensures
        rows(out@) == region_content(rows(ls@), *region),
{
    let ghost all = rows(ls@);
    let mut out: Vec<Vec<char>> = Vec::new();
    if region.content_start == 0 || region.content_end == 0 || region.content_end > ls.len() {
        assert(rows(out@) =~= Seq::<Seq<char>>::empty());
        return out;
    }
    let start = region.content_start - 1;
    let end = region.content_end;
    let mut i = start;
    while i < end
        invariant
            start <= i <= end,
            end <= ls@.len(),
            all == rows(ls@),
            out@.len() == i - start,
            rows(out@) == all.subrange(start as int, i as int),
        decreases end - i,
    {
        let line = slice_vec(&ls[i], 0, ls[i].len());
        assert(ls@[i as int]@.subrange(0, ls@[i as int]@.len() as int) =~= ls@[i as int]@);
        assert(line@ == all[i as int]);
        let ghost before = out@;
        out.push(line);
        assert forall|k: int| 0 <= k < out@.len() implies #[trigger] rows(out@)[k] == all.subrange(
            start as int,
            i + 1,
        )[k] by {
            if k < before.len() {
                assert(rows(before)[k] == before[k]@);
            }
        }
        assert(rows(out@) =~= all.subrange(start as int, i + 1));
        i = i + 1;
    }
    out
}

/// Extracts the content lines of a region from the current source text.
pub fn extract_region_content(source: &str, region: &CodeRegion) -> (out: Vec<String>)
    requires
        content_range_ok(*region, lines(source@).len() as int),
    ensures
        string_rows(out@) == region_content(lines(source@), *region),
{
    let chars = chars_of(source);
    let ls = split_lines(&chars);
    assert(rows(ls@) =~= lines(source@));
    let content = content_of(&ls, region);
    let mut out: Vec<String> = Vec::new();
    let mut i: usize = 0;
    while i < content.len()
        invariant
            i <= content@.len(),
            out@.len() == i,
            string_rows(out@) == rows(content@).take(i as int),
        decreases content.len() - i,
    {
        let s = string_from(content[i].as_slice());
        assert(s@ == content@[i as int]@);
        let ghost before = out@;
        out.push(s);
        assert forall|k: int| 0 <= k < out@.len() implies #[trigger] string_rows(out@)[k] == rows(
            content@,
        ).take(i + 1)[k] by {
            if k < before.len() {
                assert(string_rows(before)[k] == before[k]@);
            }
        }
        assert(string_rows(out@) =~= rows(content@).take(i + 1));
        i = i + 1;
    }
    assert(rows(content@).take(content@.len() as int) =~= rows(content@));
    out
}

/// The markers of a region still sit at its start and end lines, with its key.
pub open spec fn anchors_hold(ls: Seq<Seq<char>>, r: CodeRegion) -> bool {
    &&& r.start_marker != 0
    &&& r.end_marker != 0
    &&& r.end_marker <= ls.len()
    &&& parse_marker_spec(trim(ls[r.start_marker - 1]), START@) == Some(r.key@)
    &&& parse_marker_spec(trim(ls[r.end_marker - 1]), END@) == Some(r.key@)
}

/// The lines of a text are enough to look at the region's markers.
pub open spec fn markers_in_range(r: CodeRegion, n: int) -> bool {
    r.start_marker == 0 || r.end_marker == 0 || r.end_marker > n || r.start_marker <= n
}

/// Outcome of validating a region against the current source.
pub open spec fn region_check_spec(ls: Seq<Seq<char>>, r: CodeRegion) -> (bool, Option<Seq<char>>) {
    if !anchors_hold(ls, r) {
        (false, None)
    } else {
        let found = body_hash(region_content(ls, r));
        if r.hash@.len() > 0 && found != r.hash@ {
            (true, Some(found))
        } else {
            (true, None)
        }
    }
}

fn trimmed_str(v: &Vec<char>) -> (s: String)
    ensures
        s@ == trim(v@),
{
    let t = crate::text::trimmed(v, 0, v.len());
    assert(v@.subrange(0, v@.len() as int) =~= v@);
    string_from(&t)
}

/// Checks that the markers still delimit the interval with the expected key
/// and that the content hash is the recorded one.
pub fn validate_region(source: &str, region: &CodeRegion) -> (c: RegionCheck)
    requires
        markers_in_range(*region, lines(source@).len() as int),
        content_range_ok(*region, lines(source@).len() as int),
    ensures
        ({
            let (anchored, mismatch) = region_check_spec(lines(source@), *region);
            &&& !anchored ==> c == RegionCheck::AnchorDrift
            &&& anchored && mismatch is None ==> c == RegionCheck::Intact
            &&& anchored && mismatch is Some ==> (c matches RegionCheck::HashMismatch {
                expected,
                found,
            } && expected@ == region.hash@ && found@ == mismatch.unwrap())
        }),
{
    let chars = chars_of(source);
    let ls = split_lines(&chars);
    let ghost all = lines(source@);
    assert(rows(ls@) =~= all);
    if region.start_marker == 0 || region.end_marker == 0 || region.end_marker > ls.len() {
        return RegionCheck::AnchorDrift;
    }
    let start_line = trimmed_str(&ls[region.start_marker - 1]);
    let end_line = trimmed_str(&ls[region.end_marker - 1]);
    let key = chars_of(region.key.as_str());
    let start_ok = match parse_marker(start_line.as_str(), START) {
        Some(k) => {
            let kc = chars_of(k.as_str());
            vec_eq(&kc, &key)
        },
        None => false,
    };
    let end_ok = match parse_marker(end_line.as_str(), END) {
        Some(k) => {
            let kc = chars_of(k.as_str());
            vec_eq(&kc, &key)
        },
        None => false,
    };
    if !start_ok || !end_ok {
        return RegionCheck::AnchorDrift;
    }
    let content = content_of(&ls, region);
    let found = body_hash_of(&content);
    let h = chars_of(region.hash.as_str());
    let fc = chars_of(found.as_str());
    if h.len() > 0 && !vec_eq(&fc, &h) {
        let expected = string_from(&h);
        return RegionCheck::HashMismatch { expected, found };
    }
    RegionCheck::Intact
}

/// Failure to load the versioned code catalogue.
#[derive(Debug, Clone, PartialEq, Eq)]
pub enum CatalogError {
    Missing { path: String },
    Invalid { path: String, line: usize, msg: String },
}

/// In-memory code catalogue rebuilt from the versioned JSONL.
#[derive(Debug, Clone, Default)]
pub struct CodeCatalog {
    pub regions: Vec<CodeRegion>,
}

impl CodeCatalog {
    /// The first region with the given key.
    pub fn region(&self, key: &str) -> (r: Option<&CodeRegion>)
        ensures
            r is None <==> (forall|i: int| 0 <= i < self.regions@.len() ==> (#[trigger] self.regions@[i]).key@ != key@),
            r matches Some(reg) ==> exists|i: int|
                0 <= i < self.regions@.len() && *reg == self.regions@[i] && reg.key@ == key@ && forall|j: int|
                    0 <= j < i ==> (#[trigger] self.regions@[j]).key@ != key@,
    {
        find_region(&self.regions, key)
    }

    /// Regions of a layer or domain.
    pub fn list(&self, selector: &str) -> (r: Vec<&CodeRegion>)
        ensures
            r@.map_values(|x: &CodeRegion| *x) == self.regions@.filter(|x: CodeRegion| listed_under(x, selector@)),
    {
        list_regions(&self.regions, selector)
    }
}

/// Failure before any scan: a missing, non-directory or symlinked root, or
/// an I/O failure.
#[derive(Debug)]
pub enum ScanError {
    Io { path: String, msg: String },
    RootMissing { path: String },
    RootNotDirectory { path: String },
    RootSymlinkRefused { path: String },
}

/// A controlled code root, relative to the repository root.
#[derive(Debug, Clone, PartialEq, Eq)]
pub struct ScanRoot {
    /// Repo-relative path of the root; empty means the received root itself.
    pub relative_path: String,
    /// Extensions accepted in this root, without the dot.
    pub extensions: Vec<String>,
    /// Lexical dialect applied to every file of this root.
    pub dialect: MarkerDialect,
}

impl ScanRoot {
    /// A root with the default Rust dialect.
    pub fn new(relative_path: &str, extensions: &[&str]) -> (r: ScanRoot)
        ensures
            r.relative_path@ == relative_path@,
            r.extensions@.len() == extensions@.len(),
            forall|i: int| 0 <= i < extensions@.len() ==> #[trigger] r.extensions@[i]@ == extensions@[i]@,
            r.dialect == MarkerDialect::Rust,
    {
        ScanRoot::with_dialect(relative_path, extensions, MarkerDialect::Rust)
    }

    /// A root declaring its lexical dialect explicitly.
    pub fn with_dialect(relative_path: &str, extensions: &[&str], dialect: MarkerDialect) -> (r: ScanRoot)
        ensures
            r.relative_path@ == relative_path@,
            r.extensions@.len() == extensions@.len(),
            forall|i: int| 0 <= i < extensions@.len() ==> #[trigger] r.extensions@[i]@ == extensions@[i]@,
            r.dialect == dialect,
    {
        let mut exts: Vec<String> = Vec::new();
        let mut i: usize = 0;
        while i < extensions.len()
            invariant
                i <= extensions@.len(),
                exts@.len() == i,
                forall|k: int| 0 <= k < i ==> #[trigger] exts@[k]@ == extensions@[k]@,
            decreases extensions.len() - i,
        {
            let e = chars_of(extensions[i]);
            exts.push(string_from(&e));
            i = i + 1;
        }
        let rp = chars_of(relative_path);
        ScanRoot { relative_path: string_from(&rp), extensions: exts, dialect }
    }
}

/// The official roots, all mandatory: `src`, `runtime/pinker_rt/src` and
/// `tests` (Rust, `.rs`) and `apps` (Pinker, `.pink`).
pub open spec fn official_roots_spec() -> Seq<(Seq<char>, Seq<char>, MarkerDialect)> {
    seq![
        ("src"@, "rs"@, MarkerDialect::Rust),
        ("runtime/pinker_rt/src"@, "rs"@, MarkerDialect::Rust),
        ("tests"@, "rs"@, MarkerDialect::Rust),
        ("apps"@, "pink"@, MarkerDialect::Pinker),
    ]
}

/// The official roots scanned by the official flow.
pub fn official_scan_roots() -> (v: Vec<ScanRoot>)
    ensures
        v@.len() == official_roots_spec().len(),
        forall|i: int|
            0 <= i < v@.len() ==> (#[trigger] v@[i]).relative_path@ == official_roots_spec()[i].0
                && v@[i].extensions@.len() == 1 && v@[i].extensions@[0]@ == official_roots_spec()[i].1
                && v@[i].dialect == official_roots_spec()[i].2,
{
    let mut v: Vec<ScanRoot> = Vec::new();
    v.push(ScanRoot::new("src", &["rs"]));
    v.push(ScanRoot::new("runtime/pinker_rt/src", &["rs"]));
    v.push(ScanRoot::new("tests", &["rs"]));
    v.push(ScanRoot::with_dialect("apps", &["pink"], MarkerDialect::Pinker));
    v
}

/// A source file of an official root, with the root's lexical dialect.
#[derive(Debug, Clone, PartialEq, Eq)]
pub struct OfficialSourceFile {
    /// Repo-relative path, identical to the catalogue's.
    pub path: String,
    /// Official root containing the file.
    pub root: String,
    /// Lexical dialect declared by the root.
    pub dialect: MarkerDialect,
}

} // verus!
