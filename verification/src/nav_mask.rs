//! The masked view of a Rust text: comments and literals replaced by spaces,
//! new lines and byte offsets kept, so that a lexical consumer never takes
//! hidden text for code. One pass yields both the mask and the byte ranges
//! of the documentation comments, so the two answers never disagree about
//! the same text.
use crate::nav::LexicalState;
use crate::text::{chars_of, string_from};
use vstd::prelude::*;

verus! {

/// Bytes of the UTF-8 encoding of `c`.
pub open spec fn utf8_width(c: char) -> int {
    if (c as u32) < 0x80 {
        1
    } else if (c as u32) < 0x800 {
        2
    } else if (c as u32) < 0x10000 {
        3
    } else {
        4
    }
}

/// Byte offset of character `i` of `cs`.
pub open spec fn byte_offset(cs: Seq<char>, i: int) -> int
    decreases i,
{
    if i <= 0 || cs.len() == 0 {
        0
    } else if i > cs.len() {
        byte_offset(cs, cs.len() as int)
    } else {
        byte_offset(cs, i - 1) + utf8_width(cs[i - 1])
    }
}

/// `c` hidden: a new line stays, anything else becomes as many spaces as its
/// encoding has bytes.
pub open spec fn hidden(c: char) -> Seq<char> {
    if c == '\n' {
        seq!['\n']
    } else {
        Seq::new(utf8_width(c) as nat, |k: int| ' ')
    }
}

/// `c` blanked: as many spaces as its encoding has bytes, a new line too.
pub open spec fn blanked(c: char) -> Seq<char> {
    Seq::new(utf8_width(c) as nat, |k: int| ' ')
}

/// The characters `cs[a..b]`, blanked.
pub open spec fn blanked_run(cs: Seq<char>, a: int, b: int) -> Seq<char>
    decreases b - a,
{
    if b <= a {
        Seq::empty()
    } else {
        blanked_run(cs, a, b - 1) + blanked(cs[b - 1])
    }
}

pub open spec fn at(cs: Seq<char>, i: int, c: char) -> bool {
    0 <= i < cs.len() && cs[i] == c
}

/// Position of the first new line at or after `i`, or the end.
pub open spec fn line_end(cs: Seq<char>, i: int) -> int
    decreases cs.len() - i,
{
    if i >= cs.len() || i < 0 {
        cs.len() as int
    } else if cs[i] == '\n' {
        i
    } else {
        line_end(cs, i + 1)
    }
}

/// `///` (but not `////`) and `//!` are documentation.
pub open spec fn doc_line_at(cs: Seq<char>, i: int) -> bool {
    (at(cs, i + 2, '/') && !at(cs, i + 3, '/')) || at(cs, i + 2, '!')
}

/// `/**` (but not `/***` nor `/**/`) and `/*!` are documentation.
pub open spec fn doc_block_at(cs: Seq<char>, i: int) -> bool {
    (at(cs, i + 2, '*') && !at(cs, i + 3, '*') && !at(cs, i + 3, '/')) || at(cs, i + 2, '!')
}

/// Number of `#` from `p` on.
pub open spec fn hash_run(cs: Seq<char>, p: int) -> int
    decreases cs.len() - p,
{
    if p < 0 || p >= cs.len() || cs[p] != '#' {
        0
    } else {
        1 + hash_run(cs, p + 1)
    }
}

/// The prefix of a raw string at `i` (`r#*"` or `br#*"`): its length, the
/// number of `#` and whether it is a raw byte string.
pub open spec fn raw_prefix(cs: Seq<char>, i: int) -> Option<(int, int, bool)> {
    let (plen, byte) = if at(cs, i, 'b') && at(cs, i + 1, 'r') {
        (2int, true)
    } else if at(cs, i, 'r') {
        (1int, false)
    } else {
        (-1int, false)
    };
    if plen < 0 {
        None
    } else {
        let p = i + plen + hash_run(cs, i + plen);
        if at(cs, p, '"') {
            Some((p + 1 - i, p - i - plen, byte))
        } else {
            None
        }
    }
}

/// Length in characters of a character literal at `i`, which never spans
/// lines: one character or one escape between quotes, so that a lifetime
/// such as `'a` is never taken for an open literal. An escape counts only
/// when the escaped character is one byte wide.
pub open spec fn char_literal_at(cs: Seq<char>, i: int) -> Option<int> {
    if !at(cs, i, '\'') {
        None
    } else if at(cs, i + 1, '\\') {
        if i + 3 < cs.len() && (cs[i + 2] as u32) < 0x80 && cs[i + 3] == '\'' {
            Some(4)
        } else {
            None
        }
    } else if i + 2 < cs.len() && cs[i + 2] == '\'' {
        Some(3)
    } else {
        None
    }
}

/// The state of one pass over the characters.
pub struct MaskView {
    pub i: int,
    pub st: LexicalState,
    pub out: Seq<char>,
    pub docs: Seq<(int, int)>,
    pub doc_start: Option<int>,
}

/// One step of the pass.
pub open spec fn mask_step(cs: Seq<char>, m: MaskView) -> MaskView {
    let i = m.i;
    match m.st {
        LexicalState::Code => if at(cs, i, '/') && at(cs, i + 1, '/') {
            let end = line_end(cs, i);
            MaskView {
                i: end,
                out: m.out + blanked_run(cs, i, end),
                docs: if doc_line_at(cs, i) {
                    m.docs.push((byte_offset(cs, i), byte_offset(cs, end)))
                } else {
                    m.docs
                },
                ..m
            }
        } else if at(cs, i, '/') && at(cs, i + 1, '*') {
            MaskView {
                i: i + 2,
                st: LexicalState::BlockComment(1),
                out: m.out + blanked_run(cs, i, i + 2),
                doc_start: if doc_block_at(cs, i) {
                    Some(byte_offset(cs, i))
                } else {
                    m.doc_start
                },
                ..m
            }
        } else if raw_prefix(cs, i) is Some {
            let (len, hashes, byte) = raw_prefix(cs, i)->0;
            MaskView {
                i: i + len,
                st: if byte {
                    LexicalState::RawByteString(hashes as usize)
                } else {
                    LexicalState::RawString(hashes as usize)
                },
                out: m.out + blanked_run(cs, i, i + len),
                ..m
            }
        } else if at(cs, i, 'b') && at(cs, i + 1, '"') {
            MaskView {
                i: i + 2,
                st: LexicalState::ByteString,
                out: m.out + blanked_run(cs, i, i + 2),
                ..m
            }
        } else if char_literal_at(cs, i) is Some {
            let len = char_literal_at(cs, i)->0;
            MaskView { i: i + len, out: m.out + blanked_run(cs, i, i + len), ..m }
        } else if at(cs, i, '"') {
            MaskView { i: i + 1, st: LexicalState::NormalString, out: m.out + blanked(cs[i]), ..m }
        } else {
            MaskView { i: i + 1, out: m.out.push(cs[i]), ..m }
        },
        LexicalState::NormalString | LexicalState::ByteString => if cs[i] == '\\' {
            MaskView {
                i: if i + 1 < cs.len() { i + 2 } else { i + 1 },
                out: m.out + hidden(cs[i]) + if i + 1 < cs.len() {
                    hidden(cs[i + 1])
                } else {
                    Seq::empty()
                },
                ..m
            }
        } else if cs[i] == '"' {
            MaskView { i: i + 1, st: LexicalState::Code, out: m.out + hidden(cs[i]), ..m }
        } else {
            MaskView { i: i + 1, out: m.out + hidden(cs[i]), ..m }
        },
        LexicalState::RawString(h) | LexicalState::RawByteString(h) => if cs[i] == '"' && hash_run(cs, i + 1)
            >= h {
            MaskView {
                i: i + 1 + h,
                st: LexicalState::Code,
                out: m.out + hidden(cs[i]) + blanked_run(cs, i + 1, i + 1 + h),
                ..m
            }
        } else {
            MaskView { i: i + 1, out: m.out + hidden(cs[i]), ..m }
        },
        LexicalState::BlockComment(d) => if at(cs, i, '/') && at(cs, i + 1, '*') {
            MaskView {
                i: i + 2,
                st: LexicalState::BlockComment((d + 1) as usize),
                out: m.out + hidden(cs[i]) + blanked(cs[i + 1]),
                ..m
            }
        } else if at(cs, i, '*') && at(cs, i + 1, '/') {
            if d == 1 {
                MaskView {
                    i: i + 2,
                    st: LexicalState::Code,
                    out: m.out + hidden(cs[i]) + blanked(cs[i + 1]),
                    docs: match m.doc_start {
                        Some(s) => m.docs.push((s, byte_offset(cs, i + 2))),
                        None => m.docs,
                    },
                    doc_start: None,
                }
            } else {
                MaskView {
                    i: i + 2,
                    st: LexicalState::BlockComment((d - 1) as usize),
                    out: m.out + hidden(cs[i]) + blanked(cs[i + 1]),
                    ..m
                }
            }
        } else {
            MaskView { i: i + 1, out: m.out + hidden(cs[i]), ..m }
        },
    }
}

/// The pass from `m` to the end of the text.
pub open spec fn mask_run(cs: Seq<char>, m: MaskView) -> MaskView
    decreases cs.len() - m.i,
{
    if m.i < 0 || m.i >= cs.len() {
        m
    } else {
        let n = mask_step(cs, m);
        if n.i <= m.i || n.i > cs.len() {
            n
        } else {
            mask_run(cs, n)
        }
    }
}

/// The whole pass: the mask, and the byte ranges of the documentation
/// comments; a documentation block that never closes runs to the end.
pub open spec fn masked(cs: Seq<char>) -> (Seq<char>, Seq<(int, int)>) {
    let m = mask_run(
        cs,
        MaskView { i: 0, st: LexicalState::Code, out: Seq::empty(), docs: Seq::empty(), doc_start: None },
    );
    (
        m.out,
        match m.doc_start {
            Some(s) => m.docs.push((s, byte_offset(cs, cs.len() as int))),
            None => m.docs,
        },
    )
}

proof fn lemma_byte_offset_step(cs: Seq<char>, i: int)
    requires
        0 <= i < cs.len(),
    ensures
        byte_offset(cs, i + 1) == byte_offset(cs, i) + utf8_width(cs[i]),
{
}

proof fn lemma_byte_offset_bound(cs: Seq<char>, i: int)
    requires
        0 <= i <= cs.len(),
    ensures
        0 <= byte_offset(cs, i) <= 4 * i,
    decreases i,
{
    if i > 0 {
        lemma_byte_offset_bound(cs, i - 1);
    }
}

fn width(c: char) -> (w: usize)
    ensures
        w == utf8_width(c),
        1 <= w <= 4,
{
    let u = c as u32;
    if u < 0x80 {
        1
    } else if u < 0x800 {
        2
    } else if u < 0x10000 {
        3
    } else {
        4
    }
}

fn push_blanked(out: &mut Vec<char>, c: char)
    ensures
        final(out)@ == old(out)@ + blanked(c),
{
    let w = width(c);
    let ghost start = out@;
    let mut k: usize = 0;
    while k < w
        invariant
            k <= w,
            w == utf8_width(c),
            out@ == start + Seq::new(k as nat, |j: int| ' '),
        decreases w - k,
    {
        out.push(' ');
        assert(out@ =~= start + Seq::new((k + 1) as nat, |j: int| ' '));
        k = k + 1;
    }
    assert(out@ =~= start + blanked(c));
}

fn push_hidden(out: &mut Vec<char>, c: char)
    ensures
        final(out)@ == old(out)@ + hidden(c),
{
    if c == '\n' {
        out.push('\n');
        assert(out@ =~= old(out)@ + hidden(c));
    } else {
        push_blanked(out, c);
    }
}

/// Appends `cs[a..b]` blanked; returns the byte offset of `b` given that of
/// `a`.
fn push_blanked_run(out: &mut Vec<char>, cs: &Vec<char>, a: usize, b: usize, pos: usize) -> (p: usize)
    requires
        a <= b <= cs@.len(),
        pos == byte_offset(cs@, a as int),
        cs@.len() < usize::MAX / 16,
    ensures
        final(out)@ == old(out)@ + blanked_run(cs@, a as int, b as int),
        p == byte_offset(cs@, b as int),
{
    let ghost start = out@;
    let mut k = a;
    let mut p = pos;
    assert(start + blanked_run(cs@, a as int, a as int) =~= start);
    while k < b
        invariant
            a <= k <= b <= cs@.len(),
            cs@.len() < usize::MAX / 16,
            p == byte_offset(cs@, k as int),
            out@ == start + blanked_run(cs@, a as int, k as int),
        decreases b - k,
    {
        proof {
            lemma_byte_offset_step(cs@, k as int);
            lemma_byte_offset_bound(cs@, k + 1);
        }
        push_blanked(out, cs[k]);
        assert(out@ =~= start + blanked_run(cs@, a as int, k + 1));
        p = p + width(cs[k]);
        k = k + 1;
    }
    p
}

fn at_exec(cs: &Vec<char>, i: usize, c: char) -> (b: bool)
    ensures
        b == at(cs@, i as int, c),
{
    i < cs.len() && cs[i] == c
}

fn line_end_exec(cs: &Vec<char>, i: usize) -> (e: usize)
    requires
        i <= cs@.len(),
    ensures
        e == line_end(cs@, i as int),
        i <= e <= cs@.len(),
{
    let mut e = i;
    while e < cs.len() && cs[e] != '\n'
        invariant
            i <= e <= cs@.len(),
            line_end(cs@, i as int) == line_end(cs@, e as int),
        decreases cs.len() - e,
    {
        e = e + 1;
    }
    e
}

proof fn lemma_hash_run(cs: Seq<char>, p: int)
    requires
        0 <= p,
    ensures
        0 <= hash_run(cs, p),
        hash_run(cs, p) > 0 ==> p + hash_run(cs, p) <= cs.len(),
        forall|k: int| p <= k < p + hash_run(cs, p) ==> cs[k] == '#',
    decreases cs.len() - p,
{
    if 0 <= p < cs.len() && cs[p] == '#' {
        lemma_hash_run(cs, p + 1);
    }
}

fn hash_run_exec(cs: &Vec<char>, p: usize) -> (n: usize)
    requires
        p <= cs@.len(),
    ensures
        n == hash_run(cs@, p as int),
        p + n <= cs@.len(),
{
    let mut q = p;
    proof {
        lemma_hash_run(cs@, p as int);
    }
    while q < cs.len() && cs[q] == '#'
        invariant
            p <= q <= cs@.len(),
            hash_run(cs@, p as int) == (q - p) + hash_run(cs@, q as int),
        decreases cs.len() - q,
    {
        q = q + 1;
    }
    q - p
}

fn raw_prefix_exec(cs: &Vec<char>, i: usize) -> (r: Option<(usize, usize, bool)>)
    requires
        i < cs@.len() < usize::MAX / 16,
    ensures
        match raw_prefix(cs@, i as int) {
            Some((l, h, b)) => r matches Some((x, y, z)) && x == l && y == h && z == b && i + l <= cs@.len(),
            None => r is None,
        },
{
    let (plen, byte): (usize, bool) = if at_exec(cs, i, 'b') && at_exec(cs, i + 1, 'r') {
        (2, true)
    } else if at_exec(cs, i, 'r') {
        (1, false)
    } else {
        return None;
    };
    let h = hash_run_exec(cs, i + plen);
    let p = i + plen + h;
    if at_exec(cs, p, '"') {
        Some((p + 1 - i, h, byte))
    } else {
        None
    }
}

fn char_literal_exec(cs: &Vec<char>, i: usize) -> (r: Option<usize>)
    requires
        i < cs@.len() < usize::MAX / 16,
    ensures
        r == match char_literal_at(cs@, i as int) {
            Some(n) => Some(n as usize),
            None => None::<usize>,
        },
        r matches Some(n) ==> i + n <= cs@.len(),
{
    if !at_exec(cs, i, '\'') {
        None
    } else if at_exec(cs, i + 1, '\\') {
        if i + 3 < cs.len() && (cs[i + 2] as u32) < 0x80 && cs[i + 3] == '\'' {
            Some(4)
        } else {
            None
        }
    } else if i + 2 < cs.len() && cs[i + 2] == '\'' {
        Some(3)
    } else {
        None
    }
}

struct Masker {
    i: usize,
    pos: usize,
    st: LexicalState,
    out: Vec<char>,
    docs: Vec<(usize, usize)>,
    doc_start: Option<usize>,
}

spec fn docs_view(d: Seq<(usize, usize)>) -> Seq<(int, int)> {
    d.map_values(|p: (usize, usize)| (p.0 as int, p.1 as int))
}

spec fn opt_int(o: Option<usize>) -> Option<int> {
    match o {
        Some(x) => Some(x as int),
        None => None,
    }
}

impl Masker {
    spec fn view_in(self) -> MaskView {
        MaskView {
            i: self.i as int,
            st: self.st,
            out: self.out@,
            docs: docs_view(self.docs@),
            doc_start: opt_int(self.doc_start),
        }
    }

    spec fn inv(self, cs: Seq<char>) -> bool {
        &&& self.i <= cs.len() < usize::MAX / 16
        &&& self.pos == byte_offset(cs, self.i as int)
        &&& (self.st matches LexicalState::BlockComment(d) ==> 1 <= d <= self.i)
    }
}

proof fn lemma_push_docs(d: Seq<(usize, usize)>, a: usize, b: usize)
    ensures
        docs_view(d.push((a, b))) == docs_view(d).push((a as int, b as int)),
{
    assert(docs_view(d.push((a, b))) =~= docs_view(d).push((a as int, b as int)));
}

fn code_step(cs: &Vec<char>, m: &mut Masker)
    requires
        old(m).inv(cs@),
        old(m).i < cs@.len(),
        old(m).st == LexicalState::Code,
    ensures
        final(m).inv(cs@),
        final(m).view_in() == mask_step(cs@, old(m).view_in()),
{
    let i = m.i;
    proof {
        lemma_byte_offset_bound(cs@, i as int);
    }
    if at_exec(cs, i, '/') && at_exec(cs, i + 1, '/') {
        let end = line_end_exec(cs, i);
        let start_pos = m.pos;
        let end_pos = push_blanked_run(&mut m.out, cs, i, end, m.pos);
        if at_exec(cs, i + 2, '/') && !at_exec(cs, i + 3, '/') || at_exec(cs, i + 2, '!') {
            proof {
                lemma_push_docs(m.docs@, start_pos, end_pos);
            }
            m.docs.push((start_pos, end_pos));
        }
        m.i = end;
        m.pos = end_pos;
    } else if at_exec(cs, i, '/') && at_exec(cs, i + 1, '*') {
        if at_exec(cs, i + 2, '*') && !at_exec(cs, i + 3, '*') && !at_exec(cs, i + 3, '/') || at_exec(
            cs,
            i + 2,
            '!',
        ) {
            m.doc_start = Some(m.pos);
        }
        let p = push_blanked_run(&mut m.out, cs, i, i + 2, m.pos);
        m.st = LexicalState::BlockComment(1);
        m.i = i + 2;
        m.pos = p;
    } else {
        match raw_prefix_exec(cs, i) {
            Some((len, hashes, byte)) => {
                let p = push_blanked_run(&mut m.out, cs, i, i + len, m.pos);
                m.st = if byte {
                    LexicalState::RawByteString(hashes)
                } else {
                    LexicalState::RawString(hashes)
                };
                m.i = i + len;
                m.pos = p;
                return;
            },
            None => {},
        }
        if at_exec(cs, i, 'b') && at_exec(cs, i + 1, '"') {
            let p = push_blanked_run(&mut m.out, cs, i, i + 2, m.pos);
            m.st = LexicalState::ByteString;
            m.i = i + 2;
            m.pos = p;
            return;
        }
        match char_literal_exec(cs, i) {
            Some(len) => {
                let p = push_blanked_run(&mut m.out, cs, i, i + len, m.pos);
                m.i = i + len;
                m.pos = p;
                return;
            },
            None => {},
        }
        proof {
            lemma_byte_offset_step(cs@, i as int);
            lemma_byte_offset_bound(cs@, i + 1);
        }
        if cs[i] == '"' {
            push_blanked(&mut m.out, cs[i]);
            m.st = LexicalState::NormalString;
        } else {
            m.out.push(cs[i]);
        }
        m.pos = m.pos + width(cs[i]);
        m.i = i + 1;
    }
}

fn string_step(cs: &Vec<char>, m: &mut Masker)
    requires
        old(m).inv(cs@),
        old(m).i < cs@.len(),
        old(m).st == LexicalState::NormalString || old(m).st == LexicalState::ByteString,
    ensures
        final(m).inv(cs@),
        final(m).view_in() == mask_step(cs@, old(m).view_in()),
{
    let i = m.i;
    proof {
        lemma_byte_offset_step(cs@, i as int);
        lemma_byte_offset_bound(cs@, i + 1);
    }
    let ghost o = m.out@;
    push_hidden(&mut m.out, cs[i]);
    let p = m.pos + width(cs[i]);
    if cs[i] == '\\' {
        if i + 1 < cs.len() {
            proof {
                lemma_byte_offset_step(cs@, i + 1);
                lemma_byte_offset_bound(cs@, i + 2);
            }
            push_hidden(&mut m.out, cs[i + 1]);
            m.pos = p + width(cs[i + 1]);
            m.i = i + 2;
        } else {
            assert(m.out@ =~= o + hidden(cs@[i as int]) + Seq::<char>::empty());
            m.pos = p;
            m.i = i + 1;
        }
    } else if cs[i] == '"' {
        m.st = LexicalState::Code;
        m.pos = p;
        m.i = i + 1;
    } else {
        m.pos = p;
        m.i = i + 1;
    }
}

fn raw_step(cs: &Vec<char>, m: &mut Masker)
    requires
        old(m).inv(cs@),
        old(m).i < cs@.len(),
        old(m).st matches LexicalState::RawString(_) || old(m).st matches LexicalState::RawByteString(_),
    ensures
        final(m).inv(cs@),
        final(m).view_in() == mask_step(cs@, old(m).view_in()),
{
    let i = m.i;
    let h = match m.st {
        LexicalState::RawString(h) => h,
        LexicalState::RawByteString(h) => h,
        _ => 0,
    };
    proof {
        lemma_byte_offset_step(cs@, i as int);
        lemma_byte_offset_bound(cs@, i + 1);
    }
    push_hidden(&mut m.out, cs[i]);
    let p = m.pos + width(cs[i]);
    if cs[i] == '"' && hash_run_exec(cs, i + 1) >= h {
        proof {
            lemma_hash_run(cs@, i + 1);
        }
        let q = push_blanked_run(&mut m.out, cs, i + 1, i + 1 + h, p);
        m.st = LexicalState::Code;
        m.pos = q;
        m.i = i + 1 + h;
    } else {
        m.pos = p;
        m.i = i + 1;
    }
}

fn block_step(cs: &Vec<char>, m: &mut Masker)
    requires
        old(m).inv(cs@),
        old(m).i < cs@.len(),
        old(m).st matches LexicalState::BlockComment(_),
    ensures
        final(m).inv(cs@),
        final(m).view_in() == mask_step(cs@, old(m).view_in()),
{
    let i = m.i;
    let d = match m.st {
        LexicalState::BlockComment(d) => d,
        _ => 1,
    };
    proof {
        lemma_byte_offset_step(cs@, i as int);
        lemma_byte_offset_bound(cs@, i + 1);
    }
    let opens = at_exec(cs, i, '/') && at_exec(cs, i + 1, '*');
    let closes = at_exec(cs, i, '*') && at_exec(cs, i + 1, '/');
    push_hidden(&mut m.out, cs[i]);
    let p = m.pos + width(cs[i]);
    if opens || closes {
        proof {
            lemma_byte_offset_step(cs@, i + 1);
            lemma_byte_offset_bound(cs@, i + 2);
        }
        push_blanked(&mut m.out, cs[i + 1]);
        let q = p + width(cs[i + 1]);
        if opens {
            m.st = LexicalState::BlockComment(d + 1);
        } else if d == 1 {
            match m.doc_start {
                Some(start) => {
                    proof {
                        lemma_push_docs(m.docs@, start, q);
                    }
                    m.docs.push((start, q));
                },
                None => {},
            }
            m.doc_start = None;
            m.st = LexicalState::Code;
        } else {
            m.st = LexicalState::BlockComment(d - 1);
        }
        m.pos = q;
        m.i = i + 2;
    } else {
        m.pos = p;
        m.i = i + 1;
    }
}

proof fn lemma_line_end_ge(cs: Seq<char>, i: int)
    requires
        0 <= i <= cs.len(),
    ensures
        i <= line_end(cs, i) <= cs.len(),
    decreases cs.len() - i,
{
    if i < cs.len() && cs[i] != '\n' {
        lemma_line_end_ge(cs, i + 1);
    }
}

proof fn lemma_step_advances(cs: Seq<char>, m: MaskView)
    requires
        0 <= m.i < cs.len(),
    ensures
        mask_step(cs, m).i > m.i,
{
    lemma_line_end_ge(cs, m.i + 1);
    lemma_hash_run(cs, m.i + 1);
    lemma_hash_run(cs, m.i + 2);
}

fn mask_chars(cs: &Vec<char>) -> (r: (Vec<char>, Vec<(usize, usize)>))
    requires
        cs@.len() < usize::MAX / 16,
    ensures
        r.0@ == masked(cs@).0,
        docs_view(r.1@) == masked(cs@).1,
{
    let mut m = Masker {
        i: 0,
        pos: 0,
        st: LexicalState::Code,
        out: Vec::new(),
        docs: Vec::new(),
        doc_start: None,
    };
    let ghost m0 = m.view_in();
    assert(docs_view(m.docs@) =~= Seq::<(int, int)>::empty());
    assert(m0 == MaskView {
        i: 0,
        st: LexicalState::Code,
        out: Seq::empty(),
        docs: Seq::empty(),
        doc_start: None,
    });
    while m.i < cs.len()
        invariant
            m.inv(cs@),
            mask_run(cs@, m0) == mask_run(cs@, m.view_in()),
        decreases cs.len() - m.i,
    {
        let ghost before = m.view_in();
        match m.st {
            LexicalState::Code => code_step(cs, &mut m),
            LexicalState::NormalString => string_step(cs, &mut m),
            LexicalState::ByteString => string_step(cs, &mut m),
            LexicalState::RawString(_) => raw_step(cs, &mut m),
            LexicalState::RawByteString(_) => raw_step(cs, &mut m),
            LexicalState::BlockComment(_) => block_step(cs, &mut m),
        }
        proof {
            lemma_step_advances(cs@, before);
        }
    }
    let ghost fin = m.view_in();
    proof {
        lemma_byte_offset_bound(cs@, cs@.len() as int);
    }
    match m.doc_start {
        Some(start) => {
            proof {
                lemma_push_docs(m.docs@, start, m.pos);
            }
            m.docs.push((start, m.pos));
        },
        None => {},
    }
    (m.out, m.docs)
}

/// A view of a Rust text with comments and literals replaced by spaces. New
/// lines and byte offsets are kept, for lexical consumers that must not take
/// hidden text for code.
pub fn rust_code_mask(text: &str) -> (s: String)
    requires
        text@.len() < usize::MAX / 16,
    ensures
        s@ == masked(text@).0,
{
    let cs = chars_of(text);
    let (out, _) = mask_chars(&cs);
    string_from(out.as_slice())
}

/// The byte ranges of the documentation comments (`///`, `//!`, `/** */`,
/// `/*! */`). The mask hides them with the ordinary comments, but in Rust a
/// documentation comment is an attribute, not white space.
pub fn rust_doc_comment_spans(text: &str) -> (r: Vec<core::ops::Range<usize>>)
    requires
        text@.len() < usize::MAX / 16,
    ensures
        r@.len() == masked(text@).1.len(),
        forall|k: int| 0 <= k < r@.len() ==> r@[k].start == (#[trigger] masked(text@).1[k]).0 && r@[k].end
            == masked(text@).1[k].1,
{
    let cs = chars_of(text);
    let (_, docs) = mask_chars(&cs);
    let mut r: Vec<core::ops::Range<usize>> = Vec::new();
    let mut k: usize = 0;
    while k < docs.len()
        invariant
            k <= docs@.len(),
            docs_view(docs@) == masked(text@).1,
            r@.len() == k,
            forall|j: int| 0 <= j < k ==> r@[j].start == (#[trigger] docs@[j]).0 && r@[j].end == docs@[j].1,
        decreases docs.len() - k,
    {
        let (a, b) = docs[k];
        r.push(a..b);
        k = k + 1;
    }
    proof {
        assert forall|j: int| 0 <= j < r@.len() implies r@[j].start == (#[trigger] masked(text@).1[j]).0
            && r@[j].end == masked(text@).1[j].1 by {
            assert(docs_view(docs@)[j] == (docs@[j].0 as int, docs@[j].1 as int));
        }
    }
    r
}

} // verus!
