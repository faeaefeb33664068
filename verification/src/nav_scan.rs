//! The per-file scan of the `@pinker-nav` markers into catalogued regions:
//! the lexical recognizer of the root's dialect finds the real comments, a
//! stack of open regions takes their metadata and body, and every orphan,
//! unclosed, nested, mismatched, empty or invalid marker becomes a named scan
//! problem instead of being dropped.
use crate::nav::{
    body_hash, body_hash_of, first_non_ws_from, lemma_encode_len, lemma_lines_total,
    lemma_total_len_prefix, lemma_total_len_take, marker_comment, marker_comment_pinker,
    parse_marker, parse_marker_spec, parse_meta, parse_meta_spec, parse_symbol, parse_symbol_doc,
    parse_symbol_identity, pinker_depth, pinker_scan, pinker_state_ok, role_of, kind_of,
    rust_depth, rust_scan, rust_state_ok, symbol_doc_ok, symbol_identity_spec, symbol_ok,
    binding_parts, text_fits, total_len, valid_key, valid_key_spec, CodeIndex, CodeRegion,
    LexicalState, MarkerDialect, NavVerifyError, PinkerState, RegionSymbol, SymbolDocLink,
    SymbolKind, SymbolRole, END, START,
};
use crate::nav_projection_archive::{parse_u64, u64_text};
use crate::text::{chars_of, lines, rows, split_lines, string_from, string_rows, str_eq, trim};
use vstd::prelude::*;
use vstd::string::StringSliceAdditionalSpecFns;
use vstd::utf8::{decode_utf8, encode_utf8};

verus! {

// ---------------------------------------------------------------------------
// Views of the catalogue model.
// ---------------------------------------------------------------------------

pub struct SymView {
    pub identity: Seq<char>,
    pub name: Seq<char>,
    pub kind: SymbolKind,
    pub role: SymbolRole,
}

pub open spec fn sym_view(s: RegionSymbol) -> SymView {
    SymView { identity: s.identity@, name: s.name@, kind: s.kind, role: s.role }
}

pub open spec fn syms_view(v: Seq<RegionSymbol>) -> Seq<SymView> {
    Seq::new(v.len(), |i: int| sym_view(v[i]))
}

pub struct DocView {
    pub identity: Seq<char>,
    pub document: Seq<char>,
}

pub open spec fn doc_view(d: SymbolDocLink) -> DocView {
    DocView { identity: d.identity@, document: d.document@ }
}

pub open spec fn docs_view(v: Seq<SymbolDocLink>) -> Seq<DocView> {
    Seq::new(v.len(), |i: int| doc_view(v[i]))
}

pub open spec fn opt_text(o: Option<String>) -> Option<Seq<char>> {
    match o {
        Some(s) => Some(s@),
        None => None,
    }
}

/// Every field of a catalogued region, as plain values.
pub struct RegionRec {
    pub key: Seq<char>,
    pub kind: Seq<char>,
    pub domain: Option<Seq<char>>,
    pub layer: Option<Seq<char>>,
    pub phase: Option<u64>,
    pub file: Seq<char>,
    pub start_marker: int,
    pub content_start: int,
    pub content_end: int,
    pub end_marker: int,
    pub summary: Seq<char>,
    pub hash: Seq<char>,
    pub status: Seq<char>,
    pub symbols: Seq<SymView>,
    pub related_symbols: Seq<Seq<char>>,
    pub test_for: Seq<Seq<char>>,
    pub symbol_docs: Seq<DocView>,
}

pub open spec fn region_rec(r: CodeRegion) -> RegionRec {
    RegionRec {
        key: r.key@,
        kind: r.kind@,
        domain: opt_text(r.domain),
        layer: opt_text(r.layer),
        phase: r.phase,
        file: r.file@,
        start_marker: r.start_marker as int,
        content_start: r.content_start as int,
        content_end: r.content_end as int,
        end_marker: r.end_marker as int,
        summary: r.summary@,
        hash: r.hash@,
        status: r.status@,
        symbols: syms_view(r.symbols@),
        related_symbols: string_rows(r.related_symbols@),
        test_for: string_rows(r.test_for@),
        symbol_docs: docs_view(r.symbol_docs@),
    }
}

pub open spec fn region_recs(v: Seq<CodeRegion>) -> Seq<RegionRec> {
    Seq::new(v.len(), |i: int| region_rec(v[i]))
}

/// A divergence of the cartography, as plain values.
pub enum ProblemView {
    DuplicateKey { key: Seq<char>, files: Seq<Seq<char>> },
    StartWithoutEnd { key: Seq<char>, file: Seq<char>, line: int },
    EndWithoutStart { key: Seq<char>, file: Seq<char>, line: int },
    KeyMismatch { start: Seq<char>, end: Seq<char>, file: Seq<char> },
    EmptyRange { key: Seq<char>, file: Seq<char> },
    InvalidKey { key: Seq<char>, file: Seq<char>, line: int },
    Overlap { outer: Seq<char>, inner: Seq<char>, file: Seq<char> },
    MalformedMeta { key: Seq<char>, file: Seq<char>, field: Seq<char> },
    ConflictingSymbolIdentity { identity: Seq<char>, regions: Seq<Seq<char>> },
    MissingSymbolTarget { region: Seq<char>, field: Seq<char>, identity: Seq<char> },
    InvalidTestLink { region: Seq<char>, identity: Seq<char>, layer: Option<Seq<char>> },
    IndexOutOfDate { path: Seq<char> },
}

pub open spec fn problem_view(e: NavVerifyError) -> ProblemView {
    match e {
        NavVerifyError::DuplicateKey { key, files } => ProblemView::DuplicateKey {
            key: key@,
            files: string_rows(files@),
        },
        NavVerifyError::StartWithoutEnd { key, file, line } => ProblemView::StartWithoutEnd {
            key: key@,
            file: file@,
            line: line as int,
        },
        NavVerifyError::EndWithoutStart { key, file, line } => ProblemView::EndWithoutStart {
            key: key@,
            file: file@,
            line: line as int,
        },
        NavVerifyError::KeyMismatch { start, end, file } => ProblemView::KeyMismatch {
            start: start@,
            end: end@,
            file: file@,
        },
        NavVerifyError::EmptyRange { key, file } => ProblemView::EmptyRange { key: key@, file: file@ },
        NavVerifyError::InvalidKey { key, file, line } => ProblemView::InvalidKey {
            key: key@,
            file: file@,
            line: line as int,
        },
        NavVerifyError::Overlap { outer, inner, file } => ProblemView::Overlap {
            outer: outer@,
            inner: inner@,
            file: file@,
        },
        NavVerifyError::MalformedMeta { key, file, field } => ProblemView::MalformedMeta {
            key: key@,
            file: file@,
            field: field@,
        },
        NavVerifyError::ConflictingSymbolIdentity { identity, regions } =>
            ProblemView::ConflictingSymbolIdentity { identity: identity@, regions: string_rows(regions@) },
        NavVerifyError::MissingSymbolTarget { region, field, identity } =>
            ProblemView::MissingSymbolTarget { region: region@, field: field@, identity: identity@ },
        NavVerifyError::InvalidTestLink { region, identity, layer } => ProblemView::InvalidTestLink {
            region: region@,
            identity: identity@,
            layer: opt_text(layer),
        },
        NavVerifyError::IndexOutOfDate { path } => ProblemView::IndexOutOfDate { path: path@ },
    }
}

pub open spec fn problems_view(v: Seq<NavVerifyError>) -> Seq<ProblemView> {
    Seq::new(v.len(), |i: int| problem_view(v[i]))
}

/// A code index as plain values.
pub struct IndexView {
    pub regions: Seq<RegionRec>,
    pub problems: Seq<ProblemView>,
}

pub open spec fn index_view(ix: CodeIndex) -> IndexView {
    IndexView { regions: region_recs(ix.regions@), problems: problems_view(ix.scan_problems@) }
}

// ---------------------------------------------------------------------------
// The dialect's lexical state.
// ---------------------------------------------------------------------------

/// The active lexical state of a file, chosen by its root's dialect. Only the
/// marker recognizer differs between dialects; the key namespace is global.
#[derive(Debug, Clone, Copy, PartialEq, Eq, Structural)]
pub enum DialectState {
    Rust(LexicalState),
    Pinker(PinkerState),
}

pub open spec fn dialect_start(d: MarkerDialect) -> DialectState {
    match d {
        MarkerDialect::Rust => DialectState::Rust(LexicalState::Code),
        MarkerDialect::Pinker => DialectState::Pinker(PinkerState::Code),
    }
}

pub open spec fn dialect_ok(st: DialectState) -> bool {
    match st {
        DialectState::Rust(s) => rust_state_ok(s),
        DialectState::Pinker(s) => pinker_state_ok(s),
    }
}

pub open spec fn dialect_depth(st: DialectState) -> int {
    match st {
        DialectState::Rust(s) => rust_depth(s),
        DialectState::Pinker(s) => pinker_depth(s),
    }
}

/// The candidate comment of a line (from its `//` on) and the state left for
/// the next line.
pub open spec fn next_marker_spec(l: Seq<char>, st: DialectState) -> (Option<Seq<char>>, DialectState) {
    let b = encode_utf8(l);
    match st {
        DialectState::Rust(s) => {
            let (found, s2) = rust_scan(b, first_non_ws_from(b, 0), s, 0);
            (
                match found {
                    Some(k) => Some(decode_utf8(b.skip(k))),
                    None => None,
                },
                DialectState::Rust(s2),
            )
        },
        DialectState::Pinker(s) => {
            let (found, s2) = pinker_scan(b, first_non_ws_from(b, 0), s, 0);
            (
                match found {
                    Some(k) => Some(decode_utf8(b.skip(k))),
                    None => None,
                },
                DialectState::Pinker(s2),
            )
        },
    }
}

impl DialectState {
    pub fn start(d: MarkerDialect) -> (st: DialectState)
        ensures
            st == dialect_start(d),
    {
        match d {
            MarkerDialect::Rust => DialectState::Rust(LexicalState::Code),
            MarkerDialect::Pinker => DialectState::Pinker(PinkerState::Code),
        }
    }

    /// The candidate comment of this line, advancing the state to the next.
    pub fn next_marker<'a>(&mut self, line: &'a str) -> (r: Option<&'a str>)
        requires
            line.spec_bytes().len() < usize::MAX / 2,
            dialect_depth(*old(self)) + line.spec_bytes().len() < usize::MAX,
            dialect_ok(*old(self)),
        ensures
            dialect_ok(*final(self)),
            dialect_depth(*final(self)) <= dialect_depth(*old(self)) + line.spec_bytes().len(),
            ({
                let (m, st) = next_marker_spec(line@, *old(self));
                &&& *final(self) == st
                &&& m is None ==> r is None
                &&& m matches Some(c) ==> r matches Some(x) && x@ == c
            }),
    {
        match self {
            DialectState::Rust(s) => {
                let mut st = *s;
                let r = marker_comment(line, &mut st);
                *self = DialectState::Rust(st);
                proof {
                    match r {
                        Some(c) => vstd::utf8::encode_utf8_decode_utf8(c@),
                        None => {},
                    }
                }
                r
            },
            DialectState::Pinker(s) => {
                let mut st = *s;
                let r = marker_comment_pinker(line, &mut st);
                *self = DialectState::Pinker(st);
                proof {
                    match r {
                        Some(c) => vstd::utf8::encode_utf8_decode_utf8(c@),
                        None => {},
                    }
                }
                r
            },
        }
    }
}

// ---------------------------------------------------------------------------
// The scan, as a function of the lines.
// ---------------------------------------------------------------------------

/// A region whose start marker was read and whose end is still awaited.
pub struct OpenView {
    pub key: Seq<char>,
    pub start: int,
    pub invalid: bool,
    pub domain: Option<Seq<char>>,
    pub layer: Option<Seq<char>>,
    pub phase: Option<u64>,
    pub kind: Seq<char>,
    pub status: Seq<char>,
    pub summary: Seq<char>,
    pub content_start: Option<int>,
    pub content_end: int,
    pub body: Seq<Seq<char>>,
    pub in_meta: bool,
    pub symbols: Seq<SymView>,
    pub related: Seq<Seq<char>>,
    pub test_for: Seq<Seq<char>>,
    pub docs: Seq<DocView>,
}

/// A region just opened at line `n`: kind `region`, status `active`,
/// metadata still accepted.
pub open spec fn new_open(key: Seq<char>, n: int) -> OpenView {
    OpenView {
        key,
        start: n,
        invalid: !valid_key_spec(key),
        domain: None,
        layer: None,
        phase: None,
        kind: "region"@,
        status: "active"@,
        summary: Seq::empty(),
        content_start: None,
        content_end: n,
        body: Seq::empty(),
        in_meta: true,
        symbols: Seq::empty(),
        related: Seq::empty(),
        test_for: Seq::empty(),
        docs: Seq::empty(),
    }
}

/// The symbol a well-formed binding declares.
pub open spec fn symbol_of(v: Seq<char>) -> SymView {
    let p = binding_parts(v);
    SymView { identity: p[0], name: p[1], kind: kind_of(p[2])->0, role: role_of(p[3])->0 }
}

pub open spec fn doc_of(v: Seq<char>) -> DocView {
    let p = binding_parts(v);
    DocView { identity: p[0], document: p[1] }
}

pub open spec fn malformed(o: OpenView, file: Seq<char>, field: Seq<char>) -> Seq<ProblemView> {
    seq![ProblemView::MalformedMeta { key: o.key, file, field }]
}

/// A metadata line applied to the open region: the updated region and the
/// problems it raises. An unknown field, a phase that is no `u64`, a
/// malformed or repeated link is a malformed-metadata problem.
pub open spec fn meta_applied(o: OpenView, file: Seq<char>, field: Seq<char>, value: Seq<char>) -> (
    OpenView,
    Seq<ProblemView>,
) {
    if field == "domain"@ {
        (OpenView { domain: Some(value), ..o }, Seq::empty())
    } else if field == "layer"@ {
        (OpenView { layer: Some(value), ..o }, Seq::empty())
    } else if field == "summary"@ {
        (OpenView { summary: value, ..o }, Seq::empty())
    } else if field == "kind"@ {
        (OpenView { kind: value, ..o }, Seq::empty())
    } else if field == "status"@ {
        (OpenView { status: value, ..o }, Seq::empty())
    } else if field == "phase"@ {
        match u64_text(value) {
            Some(n) => (OpenView { phase: Some(n), ..o }, Seq::empty()),
            None => (o, malformed(o, file, field)),
        }
    } else if field == "symbol"@ {
        if symbol_ok(value) && !o.symbols.contains(symbol_of(value)) {
            (OpenView { symbols: o.symbols.push(symbol_of(value)), ..o }, Seq::empty())
        } else {
            (o, malformed(o, file, field))
        }
    } else if field == "related-symbol"@ {
        if symbol_identity_spec(value) && !o.related.contains(value) {
            (OpenView { related: o.related.push(value), ..o }, Seq::empty())
        } else {
            (o, malformed(o, file, field))
        }
    } else if field == "test-for"@ {
        if symbol_identity_spec(value) && !o.test_for.contains(value) {
            (OpenView { test_for: o.test_for.push(value), ..o }, Seq::empty())
        } else {
            (o, malformed(o, file, field))
        }
    } else if field == "symbol-doc"@ {
        if symbol_doc_ok(value) && !o.docs.contains(doc_of(value)) {
            (OpenView { docs: o.docs.push(doc_of(value)), ..o }, Seq::empty())
        } else {
            (o, malformed(o, file, field))
        }
    } else {
        (o, malformed(o, file, field))
    }
}

/// An ordinary line inside an open region: it ends the metadata block, joins
/// the body, and a non-blank one extends the content interval.
pub open spec fn body_line(o: OpenView, n: int, raw: Seq<char>) -> OpenView {
    let blank = trim(raw).len() == 0;
    OpenView {
        in_meta: false,
        content_start: if !blank && o.content_start is None {
            Some(n)
        } else {
            o.content_start
        },
        content_end: if blank {
            o.content_end
        } else {
            n
        },
        body: o.body.push(raw),
        ..o
    }
}

/// The region an open region becomes when its end marker is read at `end`.
pub open spec fn closed_rec(o: OpenView, file: Seq<char>, end: int) -> RegionRec {
    RegionRec {
        key: o.key,
        kind: o.kind,
        domain: o.domain,
        layer: o.layer,
        phase: o.phase,
        file,
        start_marker: o.start,
        content_start: o.content_start->0,
        content_end: o.content_end,
        end_marker: end,
        summary: o.summary,
        hash: body_hash(o.body),
        status: o.status,
        symbols: o.symbols,
        related_symbols: o.related,
        test_for: o.test_for,
        symbol_docs: o.docs,
    }
}

/// Closing an open region: a different end key is a mismatch; a region with
/// no content line is an empty range and is not catalogued; one with an
/// invalid key (already reported) is not catalogued either.
pub open spec fn finished(ix: IndexView, o: OpenView, file: Seq<char>, end_key: Seq<char>, end: int) -> IndexView {
    let p1 = if o.key != end_key {
        ix.problems.push(ProblemView::KeyMismatch { start: o.key, end: end_key, file })
    } else {
        ix.problems
    };
    if o.content_start is None {
        IndexView { regions: ix.regions, problems: p1.push(ProblemView::EmptyRange { key: o.key, file }) }
    } else if o.invalid {
        IndexView { regions: ix.regions, problems: p1 }
    } else {
        IndexView { regions: ix.regions.push(closed_rec(o, file, end)), problems: p1 }
    }
}

/// The open regions and the index while a file is scanned.
pub struct ScanView {
    pub stack: Seq<OpenView>,
    pub index: IndexView,
}

/// The effect of line `n`, whose candidate comment is `m`.
pub open spec fn line_effect(file: Seq<char>, st: ScanView, n: int, raw: Seq<char>, m: Option<Seq<char>>) -> ScanView {
    let ix = st.index;
    let start = match m {
        Some(c) => parse_marker_spec(c, START@),
        None => None,
    };
    let end = match m {
        Some(c) => parse_marker_spec(c, END@),
        None => None,
    };
    let meta = match m {
        Some(c) => parse_meta_spec(c),
        None => None,
    };
    if start is Some {
        let key = start->0;
        let p1 = if st.stack.len() > 0 {
            ix.problems.push(ProblemView::Overlap { outer: st.stack.last().key, inner: key, file })
        } else {
            ix.problems
        };
        let p2 = if !valid_key_spec(key) {
            p1.push(ProblemView::InvalidKey { key, file, line: n })
        } else {
            p1
        };
        ScanView { stack: st.stack.push(new_open(key, n)), index: IndexView { regions: ix.regions, problems: p2 } }
    } else if end is Some {
        if st.stack.len() > 0 {
            ScanView { stack: st.stack.drop_last(), index: finished(ix, st.stack.last(), file, end->0, n) }
        } else {
            ScanView {
                stack: st.stack,
                index: IndexView {
                    regions: ix.regions,
                    problems: ix.problems.push(ProblemView::EndWithoutStart { key: end->0, file, line: n }),
                },
            }
        }
    } else if st.stack.len() > 0 {
        let o = st.stack.last();
        if o.in_meta && meta is Some {
            let (o2, ps) = meta_applied(o, file, (meta->0).0, (meta->0).1);
            ScanView {
                stack: st.stack.drop_last().push(o2),
                index: IndexView { regions: ix.regions, problems: ix.problems + ps },
            }
        } else {
            ScanView { stack: st.stack.drop_last().push(body_line(o, n, raw)), index: ix }
        }
    } else {
        st
    }
}

/// The lines `ls` scanned after `n0` lines, from the given scan state and
/// lexical state.
pub open spec fn scan_lines(file: Seq<char>, ls: Seq<Seq<char>>, st: ScanView, lex: DialectState, n0: int) -> ScanView
    decreases ls.len(),
{
    if ls.len() == 0 {
        st
    } else {
        let (m, lex2) = next_marker_spec(ls[0], lex);
        scan_lines(file, ls.drop_first(), line_effect(file, st, n0 + 1, ls[0], m), lex2, n0 + 1)
    }
}

/// Every region still open at the end of the file, innermost first, is a
/// start without end.
pub open spec fn leftover(file: Seq<char>, stack: Seq<OpenView>) -> Seq<ProblemView>
    decreases stack.len(),
{
    if stack.len() == 0 {
        Seq::empty()
    } else {
        seq![ProblemView::StartWithoutEnd { key: stack.last().key, file, line: stack.last().start }]
            + leftover(file, stack.drop_last())
    }
}

/// The index after scanning the lines of a file of the given dialect.
pub open spec fn scanned(ix: IndexView, file: Seq<char>, ls: Seq<Seq<char>>, d: MarkerDialect) -> IndexView {
    let end = scan_lines(file, ls, ScanView { stack: Seq::empty(), index: ix }, dialect_start(d), 0);
    IndexView { regions: end.index.regions, problems: end.index.problems + leftover(file, end.stack) }
}

// ---------------------------------------------------------------------------
// What every catalogued region satisfies.
// ---------------------------------------------------------------------------

/// A catalogued region of file `file`: a valid key, and its content strictly
/// between its start and end markers.
pub open spec fn well_placed(r: RegionRec, file: Seq<char>) -> bool {
    &&& valid_key_spec(r.key)
    &&& r.file == file
    &&& 1 <= r.start_marker < r.content_start <= r.content_end < r.end_marker
}

pub open spec fn open_ok(o: OpenView, n: int) -> bool {
    &&& o.invalid == !valid_key_spec(o.key)
    &&& 1 <= o.start <= n
    &&& o.content_end <= n
    &&& (o.content_start matches Some(c) ==> o.start < c <= o.content_end)
}

pub open spec fn stack_ok(st: Seq<OpenView>, n: int) -> bool {
    forall|i: int| 0 <= i < st.len() ==> open_ok(#[trigger] st[i], n)
}

/// The regions from position `p` on were all catalogued from `file`, well placed.
pub open spec fn placed_from(rs: Seq<RegionRec>, p: int, file: Seq<char>) -> bool {
    forall|i: int| p <= i < rs.len() ==> well_placed(#[trigger] rs[i], file)
}

pub(crate) proof fn lemma_line_effect_ok(file: Seq<char>, st: ScanView, n: int, raw: Seq<char>, m: Option<Seq<char>>, p: int)
    requires
        n >= 1,
        stack_ok(st.stack, n - 1),
        0 <= p <= st.index.regions.len(),
        placed_from(st.index.regions, p, file),
    ensures
        ({
            let e = line_effect(file, st, n, raw, m);
            &&& stack_ok(e.stack, n)
            &&& e.index.regions.len() >= st.index.regions.len()
            &&& e.index.regions.take(st.index.regions.len() as int) == st.index.regions
            &&& placed_from(e.index.regions, p, file)
        }),
{
    let e = line_effect(file, st, n, raw, m);
    let start = match m {
        Some(c) => parse_marker_spec(c, START@),
        None => None,
    };
    let end = match m {
        Some(c) => parse_marker_spec(c, END@),
        None => None,
    };
    assert forall|i: int| 0 <= i < st.stack.len() implies open_ok(#[trigger] st.stack[i], n) by {
        assert(open_ok(st.stack[i], n - 1));
    }
    if start is Some {
        let ns = st.stack.push(new_open(start->0, n));
        assert forall|i: int| 0 <= i < ns.len() implies open_ok(#[trigger] ns[i], n) by {
            if i < st.stack.len() {
                assert(ns[i] == st.stack[i]);
            }
        }
        assert(e.index.regions.take(st.index.regions.len() as int) =~= st.index.regions);
    } else if end is Some {
        if st.stack.len() > 0 {
            let o = st.stack.last();
            assert(open_ok(o, n - 1));
            let ds = st.stack.drop_last();
            assert forall|i: int| 0 <= i < ds.len() implies open_ok(#[trigger] ds[i], n) by {
                assert(ds[i] == st.stack[i]);
            }
            let f = finished(st.index, o, file, end->0, n);
            if o.content_start is Some && !o.invalid {
                assert(f.regions == st.index.regions.push(closed_rec(o, file, n)));
                assert forall|i: int| p <= i < f.regions.len() implies well_placed(#[trigger] f.regions[i], file) by {
                    if i < st.index.regions.len() {
                        assert(f.regions[i] == st.index.regions[i]);
                    }
                }
            }
            assert(f.regions.take(st.index.regions.len() as int) =~= st.index.regions);
        } else {
            assert(e.index.regions.take(st.index.regions.len() as int) =~= st.index.regions);
        }
    } else if st.stack.len() > 0 {
        let o = st.stack.last();
        assert(open_ok(o, n - 1));
        let meta = match m {
            Some(c) => parse_meta_spec(c),
            None => None,
        };
        let o2 = if o.in_meta && meta is Some {
            meta_applied(o, file, (meta->0).0, (meta->0).1).0
        } else {
            body_line(o, n, raw)
        };
        assert(open_ok(o2, n));
        let ns = st.stack.drop_last().push(o2);
        assert forall|i: int| 0 <= i < ns.len() implies open_ok(#[trigger] ns[i], n) by {
            if i < st.stack.len() - 1 {
                assert(ns[i] == st.stack[i]);
            }
        }
        assert(e.index.regions.take(st.index.regions.len() as int) =~= st.index.regions);
    } else {
        assert(e.index.regions.take(st.index.regions.len() as int) =~= st.index.regions);
    }
}

proof fn lemma_scan_lines_ok(file: Seq<char>, ls: Seq<Seq<char>>, st: ScanView, lex: DialectState, n0: int, p: int)
    requires
        n0 >= 0,
        stack_ok(st.stack, n0),
        0 <= p <= st.index.regions.len(),
        placed_from(st.index.regions, p, file),
    ensures
        ({
            let e = scan_lines(file, ls, st, lex, n0);
            &&& e.index.regions.len() >= st.index.regions.len()
            &&& e.index.regions.take(st.index.regions.len() as int) == st.index.regions
            &&& placed_from(e.index.regions, p, file)
        }),
    decreases ls.len(),
{
    if ls.len() > 0 {
        let (m, lex2) = next_marker_spec(ls[0], lex);
        let st2 = line_effect(file, st, n0 + 1, ls[0], m);
        lemma_line_effect_ok(file, st, n0 + 1, ls[0], m, p);
        lemma_scan_lines_ok(file, ls.drop_first(), st2, lex2, n0 + 1, p);
        let e = scan_lines(file, ls.drop_first(), st2, lex2, n0 + 1);
        assert(e.index.regions.take(st.index.regions.len() as int) =~= e.index.regions.take(
            st2.index.regions.len() as int,
        ).take(st.index.regions.len() as int));
    } else {
        assert(st.index.regions.take(st.index.regions.len() as int) =~= st.index.regions);
    }
}

/// Scanning a file keeps the regions already in the index, and every region
/// it adds comes from that file, has a valid key, and has its content
/// strictly between its start and end markers.
pub proof fn law_scanned_regions_well_placed(ix: IndexView, file: Seq<char>, ls: Seq<Seq<char>>, d: MarkerDialect)
    ensures
        ({
            let out = scanned(ix, file, ls, d);
            &&& out.regions.len() >= ix.regions.len()
            &&& out.regions.take(ix.regions.len() as int) == ix.regions
            &&& forall|i: int| ix.regions.len() <= i < out.regions.len() ==> well_placed(#[trigger] out.regions[i], file)
        }),
{
    let st = ScanView { stack: Seq::empty(), index: ix };
    lemma_scan_lines_ok(file, ls, st, dialect_start(d), 0, ix.regions.len() as int);
}

// ---------------------------------------------------------------------------
// The scan.
// ---------------------------------------------------------------------------

struct OpenRegion {
    key: String,
    start_marker: usize,
    invalid_key: bool,
    domain: Option<String>,
    layer: Option<String>,
    phase: Option<u64>,
    kind: String,
    status: String,
    summary: String,
    content_start: Option<usize>,
    content_end: usize,
    content_lines: Vec<Vec<char>>,
    in_meta: bool,
    symbols: Vec<RegionSymbol>,
    related_symbols: Vec<String>,
    test_for: Vec<String>,
    symbol_docs: Vec<SymbolDocLink>,
}

spec fn open_view(o: OpenRegion) -> OpenView {
    OpenView {
        key: o.key@,
        start: o.start_marker as int,
        invalid: o.invalid_key,
        domain: opt_text(o.domain),
        layer: opt_text(o.layer),
        phase: o.phase,
        kind: o.kind@,
        status: o.status@,
        summary: o.summary@,
        content_start: match o.content_start {
            Some(n) => Some(n as int),
            None => None,
        },
        content_end: o.content_end as int,
        body: rows(o.content_lines@),
        in_meta: o.in_meta,
        symbols: syms_view(o.symbols@),
        related: string_rows(o.related_symbols@),
        test_for: string_rows(o.test_for@),
        docs: docs_view(o.symbol_docs@),
    }
}

spec fn stack_view(v: Seq<OpenRegion>) -> Seq<OpenView> {
    Seq::new(v.len(), |i: int| open_view(v[i]))
}

pub(crate) fn copy_text(s: &str) -> (r: String)
    ensures
        r@ == s@,
{
    let v = chars_of(s);
    string_from(&v)
}

pub(crate) fn copy_opt(o: &Option<String>) -> (r: Option<String>)
    ensures
        opt_text(r) == opt_text(*o),
{
    match o {
        Some(s) => Some(copy_text(s.as_str())),
        None => None,
    }
}

pub(crate) fn push_problem(index: &mut CodeIndex, e: NavVerifyError)
    ensures
        index_view(*final(index)) == (IndexView {
            regions: index_view(*old(index)).regions,
            problems: index_view(*old(index)).problems.push(problem_view(e)),
        }),
{
    let ghost before = index.scan_problems@;
    index.scan_problems.push(e);
    assert(problems_view(index.scan_problems@) =~= problems_view(before).push(problem_view(e)));
}

fn has_symbol(v: &Vec<RegionSymbol>, s: &RegionSymbol) -> (b: bool)
    ensures
        b == syms_view(v@).contains(sym_view(*s)),
{
    let mut i: usize = 0;
    while i < v.len()
        invariant
            i <= v@.len(),
            forall|j: int| 0 <= j < i ==> syms_view(v@)[j] != sym_view(*s),
        decreases v.len() - i,
    {
        let x = &v[i];
        if str_eq(x.identity.as_str(), s.identity.as_str()) && str_eq(x.name.as_str(), s.name.as_str())
            && x.kind == s.kind && x.role == s.role {
            assert(syms_view(v@)[i as int] == sym_view(*s));
            return true;
        }
        i = i + 1;
    }
    false
}

fn has_doc(v: &Vec<SymbolDocLink>, d: &SymbolDocLink) -> (b: bool)
    ensures
        b == docs_view(v@).contains(doc_view(*d)),
{
    let mut i: usize = 0;
    while i < v.len()
        invariant
            i <= v@.len(),
            forall|j: int| 0 <= j < i ==> docs_view(v@)[j] != doc_view(*d),
        decreases v.len() - i,
    {
        let x = &v[i];
        if str_eq(x.identity.as_str(), d.identity.as_str()) && str_eq(x.document.as_str(), d.document.as_str()) {
            assert(docs_view(v@)[i as int] == doc_view(*d));
            return true;
        }
        i = i + 1;
    }
    false
}

fn has_text(v: &Vec<String>, t: &str) -> (b: bool)
    ensures
        b == string_rows(v@).contains(t@),
{
    let mut i: usize = 0;
    while i < v.len()
        invariant
            i <= v@.len(),
            forall|j: int| 0 <= j < i ==> string_rows(v@)[j] != t@,
        decreases v.len() - i,
    {
        if str_eq(v[i].as_str(), t) {
            assert(string_rows(v@)[i as int] == t@);
            return true;
        }
        i = i + 1;
    }
    false
}

fn malformed_meta(open: &OpenRegion, rel_path: &str, field: &str, index: &mut CodeIndex)
    ensures
        index_view(*final(index)) == (IndexView {
            regions: index_view(*old(index)).regions,
            problems: index_view(*old(index)).problems + malformed(open_view(*open), rel_path@, field@),
        }),
{
    let e = NavVerifyError::MalformedMeta {
        key: copy_text(open.key.as_str()),
        file: copy_text(rel_path),
        field: copy_text(field),
    };
    push_problem(index, e);
    assert(index_view(*old(index)).problems.push(problem_view(e)) =~= index_view(*old(index)).problems
        + malformed(open_view(*open), rel_path@, field@));
}

#[verifier::spinoff_prover]
fn apply_meta(open: &mut OpenRegion, rel_path: &str, field: &str, value: &str, index: &mut CodeIndex)
    ensures
        ({
            let (o2, ps) = meta_applied(open_view(*old(open)), rel_path@, field@, value@);
            &&& open_view(*final(open)) == o2
            &&& index_view(*final(index)) == (IndexView {
                regions: index_view(*old(index)).regions,
                problems: index_view(*old(index)).problems + ps,
            })
        }),
{
    let ghost ov = open_view(*open);
    let ghost iv = index_view(*index);
    assert(iv.problems + Seq::<ProblemView>::empty() =~= iv.problems);
    if str_eq(field, "domain") {
        open.domain = Some(copy_text(value));
    } else if str_eq(field, "layer") {
        open.layer = Some(copy_text(value));
    } else if str_eq(field, "summary") {
        open.summary = copy_text(value);
    } else if str_eq(field, "kind") {
        open.kind = copy_text(value);
    } else if str_eq(field, "status") {
        open.status = copy_text(value);
    } else if str_eq(field, "phase") {
        let v = chars_of(value);
        match parse_u64(&v) {
            Some(n) => {
                open.phase = Some(n);
            },
            None => malformed_meta(open, rel_path, field, index),
        }
    } else if str_eq(field, "symbol") {
        match parse_symbol(value) {
            Some(sym) => {
                assert(sym_view(sym) == symbol_of(value@));
                if has_symbol(&open.symbols, &sym) {
                    malformed_meta(open, rel_path, field, index);
                } else {
                    let ghost before = open.symbols@;
                    open.symbols.push(sym);
                    assert(syms_view(open.symbols@) =~= syms_view(before).push(symbol_of(value@)));
                }
            },
            None => malformed_meta(open, rel_path, field, index),
        }
    } else if str_eq(field, "related-symbol") {
        match parse_symbol_identity(value) {
            Some(id) => {
                if has_text(&open.related_symbols, id.as_str()) {
                    malformed_meta(open, rel_path, field, index);
                } else {
                    let ghost before = open.related_symbols@;
                    open.related_symbols.push(id);
                    assert(string_rows(open.related_symbols@) =~= string_rows(before).push(value@));
                }
            },
            None => malformed_meta(open, rel_path, field, index),
        }
    } else if str_eq(field, "test-for") {
        match parse_symbol_identity(value) {
            Some(id) => {
                if has_text(&open.test_for, id.as_str()) {
                    malformed_meta(open, rel_path, field, index);
                } else {
                    let ghost before = open.test_for@;
                    open.test_for.push(id);
                    assert(string_rows(open.test_for@) =~= string_rows(before).push(value@));
                }
            },
            None => malformed_meta(open, rel_path, field, index),
        }
    } else if str_eq(field, "symbol-doc") {
        match parse_symbol_doc(value) {
            Some(link) => {
                assert(doc_view(link) == doc_of(value@));
                if has_doc(&open.symbol_docs, &link) {
                    malformed_meta(open, rel_path, field, index);
                } else {
                    let ghost before = open.symbol_docs@;
                    open.symbol_docs.push(link);
                    assert(docs_view(open.symbol_docs@) =~= docs_view(before).push(doc_of(value@)));
                }
            },
            None => malformed_meta(open, rel_path, field, index),
        }
    } else {
        malformed_meta(open, rel_path, field, index);
    }
}

fn body_line_exec(open: &mut OpenRegion, line_no: usize, raw: &Vec<char>)
    ensures
        open_view(*final(open)) == body_line(open_view(*old(open)), line_no as int, raw@),
{
    let blank = crate::nav::is_blank(raw);
    open.in_meta = false;
    if !blank {
        if open.content_start.is_none() {
            open.content_start = Some(line_no);
        }
        open.content_end = line_no;
    }
    let ghost before = open.content_lines@;
    let copy = crate::text::slice_vec(raw, 0, raw.len());
    assert(raw@.subrange(0, raw@.len() as int) =~= raw@);
    open.content_lines.push(copy);
    assert(rows(open.content_lines@) =~= rows(before).push(raw@));
}

#[verifier::spinoff_prover]
fn finish_region(rel_path: &str, open: OpenRegion, end_key: String, end_line: usize, index: &mut CodeIndex)
    ensures
        index_view(*final(index)) == finished(index_view(*old(index)), open_view(open), rel_path@, end_key@, end_line as int),
{
    let ghost ov = open_view(open);
    if !str_eq(open.key.as_str(), end_key.as_str()) {
        push_problem(
            index,
            NavVerifyError::KeyMismatch {
                start: copy_text(open.key.as_str()),
                end: copy_text(end_key.as_str()),
                file: copy_text(rel_path),
            },
        );
    }
    let content_start = match open.content_start {
        Some(n) => n,
        None => {
            push_problem(index, NavVerifyError::EmptyRange { key: copy_text(open.key.as_str()), file: copy_text(rel_path) });
            return;
        },
    };
    if open.invalid_key {
        return;
    }
    let hash = body_hash_of(&open.content_lines);
    let region = CodeRegion {
        key: open.key,
        kind: open.kind,
        domain: open.domain,
        layer: open.layer,
        phase: open.phase,
        file: copy_text(rel_path),
        start_marker: open.start_marker,
        content_start,
        content_end: open.content_end,
        end_marker: end_line,
        summary: open.summary,
        hash,
        status: open.status,
        symbols: open.symbols,
        related_symbols: open.related_symbols,
        test_for: open.test_for,
        symbol_docs: open.symbol_docs,
    };
    assert(region_rec(region) == closed_rec(ov, rel_path@, end_line as int));
    let ghost before = index.regions@;
    index.regions.push(region);
    assert(region_recs(index.regions@) =~= region_recs(before).push(closed_rec(ov, rel_path@, end_line as int)));
}

spec fn opt_view(m: Option<&str>) -> Option<Seq<char>> {
    match m {
        Some(c) => Some(c@),
        None => None,
    }
}

#[verifier::spinoff_prover]
fn scan_line(
    rel_path: &str,
    stack: &mut Vec<OpenRegion>,
    index: &mut CodeIndex,
    line_no: usize,
    raw: &Vec<char>,
    m: Option<&str>,
)
    ensures
        (ScanView { stack: stack_view(final(stack)@), index: index_view(*final(index)) }) == line_effect(
            rel_path@,
            ScanView { stack: stack_view(old(stack)@), index: index_view(*old(index)) },
            line_no as int,
            raw@,
            opt_view(m),
        ),
{
    let ghost sv = stack_view(stack@);
    let start = match m {
        Some(c) => parse_marker(c, START),
        None => None,
    };
    match start {
        Some(key) => {
            if stack.len() > 0 {
                let outer = copy_text(stack[stack.len() - 1].key.as_str());
                assert(outer@ == sv.last().key);
                push_problem(
                    index,
                    NavVerifyError::Overlap { outer, inner: copy_text(key.as_str()), file: copy_text(rel_path) },
                );
            }
            let invalid = !valid_key(key.as_str());
            if invalid {
                push_problem(
                    index,
                    NavVerifyError::InvalidKey { key: copy_text(key.as_str()), file: copy_text(rel_path), line: line_no },
                );
            }
            let empty: Vec<char> = Vec::new();
            let o = OpenRegion {
                key,
                start_marker: line_no,
                invalid_key: invalid,
                domain: None,
                layer: None,
                phase: None,
                kind: copy_text("region"),
                status: copy_text("active"),
                summary: string_from(&empty),
                content_start: None,
                content_end: line_no,
                content_lines: Vec::new(),
                in_meta: true,
                symbols: Vec::new(),
                related_symbols: Vec::new(),
                test_for: Vec::new(),
                symbol_docs: Vec::new(),
            };
            assert(rows(o.content_lines@) =~= Seq::<Seq<char>>::empty());
            assert(syms_view(o.symbols@) =~= Seq::<SymView>::empty());
            assert(string_rows(o.related_symbols@) =~= Seq::<Seq<char>>::empty());
            assert(string_rows(o.test_for@) =~= Seq::<Seq<char>>::empty());
            assert(docs_view(o.symbol_docs@) =~= Seq::<DocView>::empty());
            assert(open_view(o) == new_open(o.key@, line_no as int));
            let ghost before = stack@;
            stack.push(o);
            assert(stack_view(stack@) =~= stack_view(before).push(open_view(o)));
            return;
        },
        None => {},
    }
    let end = match m {
        Some(c) => parse_marker(c, END),
        None => None,
    };
    match end {
        Some(end_key) => {
            let ghost before = stack@;
            match stack.pop() {
                Some(open) => {
                    assert(stack_view(stack@) =~= stack_view(before).drop_last());
                    assert(open_view(open) == stack_view(before).last());
                    finish_region(rel_path, open, end_key, line_no, index);
                },
                None => {
                    push_problem(
                        index,
                        NavVerifyError::EndWithoutStart { key: end_key, file: copy_text(rel_path), line: line_no },
                    );
                },
            }
            return;
        },
        None => {},
    }
    let ghost before = stack@;
    match stack.pop() {
        Some(o) => {
            let mut o = o;
            assert(stack_view(stack@) =~= stack_view(before).drop_last());
            assert(open_view(o) == stack_view(before).last());
            let meta = if o.in_meta {
                match m {
                    Some(c) => parse_meta(c),
                    None => None,
                }
            } else {
                None
            };
            match meta {
                Some(fv) => {
                    apply_meta(&mut o, rel_path, fv.0.as_str(), fv.1.as_str(), index);
                },
                None => {
                    body_line_exec(&mut o, line_no, raw);
                },
            }
            let ghost mid = stack@;
            stack.push(o);
            assert(stack_view(stack@) =~= stack_view(mid).push(open_view(o)));
        },
        None => {},
    }
}

/// Scans the lines of one file of a root with the given dialect, appending
/// its regions and its scan problems to the index.
#[verifier::spinoff_prover]
pub fn scan_file(rel_path: &str, text: &str, dialect: MarkerDialect, index: &mut CodeIndex)
    requires
        text_fits(text@),
    ensures
        index_view(*final(index)) == scanned(index_view(*old(index)), rel_path@, lines(text@), dialect),
{
    let chars = chars_of(text);
    let ls = split_lines(&chars);
    let ghost all = lines(text@);
    proof {
        lemma_lines_total(text@, 0);
    }
    let ghost init = ScanView { stack: Seq::empty(), index: index_view(*index) };
    let mut stack: Vec<OpenRegion> = Vec::new();
    let mut lex = DialectState::start(dialect);
    let mut k: usize = 0;
    assert(all.skip(0) =~= all);
    assert(stack_view(stack@) =~= Seq::<OpenView>::empty());
    while k < ls.len()
        invariant
            all == lines(text@),
            ls@.len() == all.len(),
            forall|j: int| 0 <= j < ls@.len() ==> #[trigger] ls@[j]@ == all[j],
            text_fits(text@),
            total_len(all) <= text@.len(),
            k <= ls@.len(),
            dialect_ok(lex),
            dialect_depth(lex) <= 4 * total_len(all.take(k as int)),
            scan_lines(rel_path@, all, init, dialect_start(dialect), 0) == scan_lines(
                rel_path@,
                all.skip(k as int),
                ScanView { stack: stack_view(stack@), index: index_view(*index) },
                lex,
                k as int,
            ),
        decreases ls.len() - k,
    {
        let line = string_from(ls[k].as_slice());
        let l: &str = line.as_str();
        proof {
            lemma_total_len_take(all, k as int);
            lemma_total_len_prefix(all, k + 1);
            lemma_encode_len(l@);
            assert(all.skip(k as int)[0] == all[k as int]);
            assert(all.skip(k as int).drop_first() =~= all.skip(k + 1));
        }
        let m = lex.next_marker(l);
        scan_line(rel_path, &mut stack, index, k + 1, &ls[k], m);
        k = k + 1;
    }
    assert(all.skip(k as int) =~= Seq::<Seq<char>>::empty());
    let ghost fin = scan_lines(rel_path@, all, init, dialect_start(dialect), 0);
    let ghost goal = fin.index.problems + leftover(rel_path@, fin.stack);
    while stack.len() > 0
        invariant
            index_view(*index).regions == fin.index.regions,
            index_view(*index).problems + leftover(rel_path@, stack_view(stack@)) == goal,
        decreases stack.len(),
    {
        let ghost before = stack@;
        let ghost p = index_view(*index).problems;
        match stack.pop() {
            Some(o) => {
                assert(stack_view(stack@) =~= stack_view(before).drop_last());
                assert(open_view(o) == stack_view(before).last());
                let e = NavVerifyError::StartWithoutEnd { key: o.key, file: copy_text(rel_path), line: o.start_marker };
                push_problem(index, e);
                assert(p + leftover(rel_path@, stack_view(before)) =~= p.push(problem_view(e)) + leftover(
                    rel_path@,
                    stack_view(stack@),
                ));
            },
            None => {},
        }
    }
    assert(leftover(rel_path@, stack_view(stack@)) =~= Seq::<ProblemView>::empty());
    assert(index_view(*index).problems + Seq::<ProblemView>::empty() =~= index_view(*index).problems);
}


// ---------------------------------------------------------------------------
// The status of a region.
// ---------------------------------------------------------------------------

/// A `status` metadata line read while the innermost open region is still
/// in its metadata block sets that region's status to the line's value,
/// and touches nothing else of the scan.
pub proof fn law_status_line_sets_status(
    file: Seq<char>,
    st: ScanView,
    n: int,
    raw: Seq<char>,
    c: Seq<char>,
    v: Seq<char>,
)
    requires
        st.stack.len() > 0,
        st.stack.last().in_meta,
        parse_marker_spec(c, START@) is None,
        parse_marker_spec(c, END@) is None,
        parse_meta_spec(c) == Some(("status"@, v)),
    ensures
        line_effect(file, st, n, raw, Some(c)).stack.len() == st.stack.len(),
        line_effect(file, st, n, raw, Some(c)).stack.last().status == v,
        line_effect(file, st, n, raw, Some(c)).stack.last().key == st.stack.last().key,
        line_effect(file, st, n, raw, Some(c)).stack.drop_last() == st.stack.drop_last(),
        line_effect(file, st, n, raw, Some(c)).index == st.index,
{
    reveal_strlit("status");
    reveal_strlit("domain");
    reveal_strlit("layer");
    reveal_strlit("summary");
    reveal_strlit("kind");
    let e = line_effect(file, st, n, raw, Some(c));
    assert("status"@ != "domain"@) by { assert("status"@[0] != "domain"@[0]); }
    assert("status"@ != "layer"@) by { assert("status"@.len() != "layer"@.len()); }
    assert("status"@ != "summary"@) by { assert("status"@.len() != "summary"@.len()); }
    assert("status"@ != "kind"@) by { assert("status"@.len() != "kind"@.len()); }
    let o2 = meta_applied(st.stack.last(), file, "status"@, v).0;
    assert(o2.status == v);
    assert(e.stack == st.stack.drop_last().push(o2));
    assert(e.stack.last() == o2);
    assert(e.stack.drop_last() =~= st.stack.drop_last());
}

/// Any other metadata line, and any body line, leaves the status of the
/// innermost open region as it was.
pub proof fn law_other_lines_keep_status(o: OpenView, file: Seq<char>, field: Seq<char>, value: Seq<char>, n: int, raw: Seq<char>)
    ensures
        field != "status"@ ==> meta_applied(o, file, field, value).0.status == o.status,
        body_line(o, n, raw).status == o.status,
{
}

/// Closing a region catalogues it with the status its open region holds.
pub proof fn law_closed_region_keeps_status(ix: IndexView, o: OpenView, file: Seq<char>, end_key: Seq<char>, end: int)
    requires
        o.content_start is Some,
        !o.invalid,
    ensures
        finished(ix, o, file, end_key, end).regions.len() == ix.regions.len() + 1,
        finished(ix, o, file, end_key, end).regions.last().status == o.status,
        finished(ix, o, file, end_key, end).regions.last().key == o.key,
{
}


proof fn lemma_meta_fields(o: OpenView, file: Seq<char>, f: Seq<char>, v: Seq<char>)
    ensures
        ({
            let r = meta_applied(o, file, f, v);
            &&& r.0.key == o.key
            &&& (f == "domain"@ ==> r.0.domain == Some(v) && r.1 == Seq::<ProblemView>::empty())
            &&& (f == "layer"@ ==> r.0.layer == Some(v) && r.1 == Seq::<ProblemView>::empty())
            &&& (f == "summary"@ ==> r.0.summary == v && r.1 == Seq::<ProblemView>::empty())
            &&& (f == "kind"@ ==> r.0.kind == v && r.1 == Seq::<ProblemView>::empty())
            &&& (f == "status"@ ==> r.0.status == v && r.1 == Seq::<ProblemView>::empty())
        }),
{
    reveal_strlit("status");
    reveal_strlit("domain");
    reveal_strlit("layer");
    reveal_strlit("summary");
    reveal_strlit("kind");
    assert("status"@ != "domain"@) by { assert("status"@[0] != "domain"@[0]); }
    assert("status"@ != "layer"@) by { assert("status"@.len() != "layer"@.len()); }
    assert("status"@ != "summary"@) by { assert("status"@.len() != "summary"@.len()); }
    assert("status"@ != "kind"@) by { assert("status"@.len() != "kind"@.len()); }
    assert("domain"@ != "layer"@) by { assert("domain"@.len() != "layer"@.len()); }
    assert("domain"@ != "summary"@) by { assert("domain"@.len() != "summary"@.len()); }
    assert("domain"@ != "kind"@) by { assert("domain"@.len() != "kind"@.len()); }
    assert("layer"@ != "summary"@) by { assert("layer"@.len() != "summary"@.len()); }
    assert("layer"@ != "kind"@) by { assert("layer"@.len() != "kind"@.len()); }
    assert("summary"@ != "kind"@) by { assert("summary"@.len() != "kind"@.len()); }
}

/// The descriptive metadata lines of a region read while its metadata block
/// is open: `domain` and `layer` set that field to the value, `summary`,
/// `kind` and `status` set it too, and none of these five touches the
/// index; whatever the field, the region keeps its key and stays on top.
#[verifier::spinoff_prover]
pub proof fn law_meta_line_sets_field(
    file: Seq<char>,
    st: ScanView,
    n: int,
    raw: Seq<char>,
    c: Seq<char>,
    f: Seq<char>,
    v: Seq<char>,
)
    requires
        st.stack.len() > 0,
        st.stack.last().in_meta,
        parse_marker_spec(c, START@) is None,
        parse_marker_spec(c, END@) is None,
        parse_meta_spec(c) == Some((f, v)),
    ensures
        ({
            let o = st.stack.last();
            let e = line_effect(file, st, n, raw, Some(c));
            &&& e.stack.len() == st.stack.len()
            &&& e.stack.drop_last() == st.stack.drop_last()
            &&& e.stack.last().key == o.key
            &&& (f == "domain"@ ==> e.stack.last().domain == Some(v) && e.index == st.index)
            &&& (f == "layer"@ ==> e.stack.last().layer == Some(v) && e.index == st.index)
            &&& (f == "summary"@ ==> e.stack.last().summary == v && e.index == st.index)
            &&& (f == "kind"@ ==> e.stack.last().kind == v && e.index == st.index)
            &&& (f == "status"@ ==> e.stack.last().status == v && e.index == st.index)
        }),
{
    let e = line_effect(file, st, n, raw, Some(c));
    let r = meta_applied(st.stack.last(), file, f, v);
    lemma_meta_fields(st.stack.last(), file, f, v);
    assert(e.stack == st.stack.drop_last().push(r.0));
    assert(e.stack.last() == r.0);
    assert(e.stack.drop_last() =~= st.stack.drop_last());
    assert(e.index == IndexView { regions: st.index.regions, problems: st.index.problems + r.1 });
    if r.1 == Seq::<ProblemView>::empty() {
        assert(st.index.problems + r.1 =~= st.index.problems);
    }
}

} // verus!
