//! Pinker colour palette for terminals and editors: 24-bit ANSI truecolor
//! sequences (`ESC[38;2;R;G;Bm`), the named palette and the theme, and the
//! styling helpers the compiler uses for its textual output.
use crate::text::{chars_of, decimal, hex_fixed_upper, push_decimal, push_hex_fixed_upper, push_str_chars, string_from};
use vstd::prelude::*;

verus! {

/// A 24-bit RGB colour.
#[derive(Debug, Clone, Copy, PartialEq, Eq, Structural)]
pub struct Rgb {
    pub r: u8,
    pub g: u8,
    pub b: u8,
}

/// The colour whose `0xRRGGBB` literal is `hex` (bits above 24 ignored).
pub open spec fn rgb_of_hex(hex: u32) -> Rgb {
    Rgb {
        r: ((hex / 0x10000) % 0x100) as u8,
        g: ((hex / 0x100) % 0x100) as u8,
        b: (hex % 0x100) as u8,
    }
}

/// `ESC[<layer>;2;R;G;Bm`, the truecolor selection for a layer (`38`
/// foreground, `48` background).
pub open spec fn ansi_of(layer: Seq<char>, c: Rgb) -> Seq<char> {
    seq!['\u{1b}', '['] + layer + seq![';', '2', ';'] + decimal(c.r as nat) + seq![';'] + decimal(
        c.g as nat,
    ) + seq![';'] + decimal(c.b as nat) + seq!['m']
}

/// `#RRGGBB`, upper-case hexadecimal.
pub open spec fn hex_string_of(c: Rgb) -> Seq<char> {
    seq!['#'] + hex_fixed_upper(c.r as nat, 2) + hex_fixed_upper(c.g as nat, 2)
        + hex_fixed_upper(c.b as nat, 2)
}

/// The ANSI reset sequence `ESC[0m`.
pub open spec fn reset_seq() -> Seq<char> {
    seq!['\u{1b}', '[', '0', 'm']
}

/// `ESC[<code>m`, a single-parameter SGR sequence.
pub open spec fn sgr(code: char) -> Seq<char> {
    seq!['\u{1b}', '[', code, 'm']
}

impl Rgb {
    /// The colour of a `0xRRGGBB` literal.
    pub fn from_hex(hex: u32) -> (c: Rgb)
        ensures
            c == rgb_of_hex(hex),
    {
        Rgb { r: ((hex / 0x10000) % 0x100) as u8, g: ((hex / 0x100) % 0x100) as u8, b: (hex % 0x100) as u8 }
    }

    /// Truecolor foreground sequence.
    pub fn fg_ansi(self) -> (s: String)
        ensures
            s@ == ansi_of(seq!['3', '8'], self),
    {
        let mut out: Vec<char> = Vec::new();
        push_ansi(&mut out, '3', '8', self);
        string_from(&out)
    }

    /// Truecolor background sequence.
    pub fn bg_ansi(self) -> (s: String)
        ensures
            s@ == ansi_of(seq!['4', '8'], self),
    {
        let mut out: Vec<char> = Vec::new();
        push_ansi(&mut out, '4', '8', self);
        string_from(&out)
    }

    /// `#RRGGBB`.
    pub fn to_hex_string(self) -> (s: String)
        ensures
            s@ == hex_string_of(self),
    {
        let mut out: Vec<char> = Vec::new();
        push_hex(&mut out, self);
        string_from(&out)
    }
}

fn push_ansi(out: &mut Vec<char>, l0: char, l1: char, c: Rgb)
    ensures
        final(out)@ == old(out)@ + ansi_of(seq![l0, l1], c),
{
    out.push('\u{1b}');
    out.push('[');
    out.push(l0);
    out.push(l1);
    out.push(';');
    out.push('2');
    out.push(';');
    push_decimal(out, c.r as u64);
    out.push(';');
    push_decimal(out, c.g as u64);
    out.push(';');
    push_decimal(out, c.b as u64);
    out.push('m');
    assert(final(out)@ =~= old(out)@ + ansi_of(seq![l0, l1], c));
}

fn push_hex(out: &mut Vec<char>, c: Rgb)
    ensures
        final(out)@ == old(out)@ + hex_string_of(c),
{
    out.push('#');
    push_hex_fixed_upper(out, c.r as u64, 2);
    push_hex_fixed_upper(out, c.g as u64, 2);
    push_hex_fixed_upper(out, c.b as u64, 2);
    assert(final(out)@ =~= old(out)@ + hex_string_of(c));
}

fn push_reset(out: &mut Vec<char>)
    ensures
        final(out)@ == old(out)@ + reset_seq(),
{
    out.push('\u{1b}');
    out.push('[');
    out.push('0');
    out.push('m');
    assert(final(out)@ =~= old(out)@ + reset_seq());
}

fn push_sgr(out: &mut Vec<char>, code: char)
    ensures
        final(out)@ == old(out)@ + sgr(code),
{
    out.push('\u{1b}');
    out.push('[');
    out.push(code);
    out.push('m');
    assert(final(out)@ =~= old(out)@ + sgr(code));
}

/// Main editor background.
pub open spec fn spec_fundo_principal() -> Rgb {
    Rgb { r: 0x0D, g: 0x0B, b: 0x14 }
}

/// Main editor background.
#[verifier::when_used_as_spec(spec_fundo_principal)]
pub fn fundo_principal() -> (c: Rgb)
    ensures
        c == spec_fundo_principal(),
{
    Rgb { r: 0x0D, g: 0x0B, b: 0x14 }
}

/// Secondary background: sidebars and panels.
pub open spec fn spec_fundo_secundario() -> Rgb {
    Rgb { r: 0x15, g: 0x11, b: 0x20 }
}

/// Secondary background: sidebars and panels.
#[verifier::when_used_as_spec(spec_fundo_secundario)]
pub fn fundo_secundario() -> (c: Rgb)
    ensures
        c == spec_fundo_secundario(),
{
    Rgb { r: 0x15, g: 0x11, b: 0x20 }
}

/// Normal text.
pub open spec fn spec_texto_normal() -> Rgb {
    Rgb { r: 0xF4, g: 0xEF, b: 0xFF }
}

/// Normal text.
#[verifier::when_used_as_spec(spec_texto_normal)]
pub fn texto_normal() -> (c: Rgb)
    ensures
        c == spec_texto_normal(),
{
    Rgb { r: 0xF4, g: 0xEF, b: 0xFF }
}

/// Soft text: comments and low-emphasis elements.
pub open spec fn spec_texto_suave() -> Rgb {
    Rgb { r: 0x9B, g: 0x8F, b: 0xB3 }
}

/// Soft text: comments and low-emphasis elements.
#[verifier::when_used_as_spec(spec_texto_suave)]
pub fn texto_suave() -> (c: Rgb)
    ensures
        c == spec_texto_suave(),
{
    Rgb { r: 0x9B, g: 0x8F, b: 0xB3 }
}

/// Main Pinker keyword colour.
pub open spec fn spec_keyword() -> Rgb {
    Rgb { r: 0xFF, g: 0x4F, b: 0xCB }
}

/// Main Pinker keyword colour.
#[verifier::when_used_as_spec(spec_keyword)]
pub fn keyword() -> (c: Rgb)
    ensures
        c == spec_keyword(),
{
    Rgb { r: 0xFF, g: 0x4F, b: 0xCB }
}

/// Types, special names, annotations.
pub open spec fn spec_tipo() -> Rgb {
    Rgb { r: 0xC7, g: 0x92, b: 0xFF }
}

/// Types, special names, annotations.
#[verifier::when_used_as_spec(spec_tipo)]
pub fn tipo() -> (c: Rgb)
    ensures
        c == spec_tipo(),
{
    Rgb { r: 0xC7, g: 0x92, b: 0xFF }
}

/// String literals.
pub open spec fn spec_string() -> Rgb {
    Rgb { r: 0xFF, g: 0xB3, b: 0xE6 }
}

/// String literals.
#[verifier::when_used_as_spec(spec_string)]
pub fn string() -> (c: Rgb)
    ensures
        c == spec_string(),
{
    Rgb { r: 0xFF, g: 0xB3, b: 0xE6 }
}

/// Numeric literals.
pub open spec fn spec_numero() -> Rgb {
    Rgb { r: 0xFF, g: 0xC8, b: 0x57 }
}

/// Numeric literals.
#[verifier::when_used_as_spec(spec_numero)]
pub fn numero() -> (c: Rgb)
    ensures
        c == spec_numero(),
{
    Rgb { r: 0xFF, g: 0xC8, b: 0x57 }
}

/// Function names and calls.
pub open spec fn spec_funcao() -> Rgb {
    Rgb { r: 0x7E, g: 0xE7, b: 0xFF }
}

/// Function names and calls.
#[verifier::when_used_as_spec(spec_funcao)]
pub fn funcao() -> (c: Rgb)
    ensures
        c == spec_funcao(),
{
    Rgb { r: 0x7E, g: 0xE7, b: 0xFF }
}

/// Operators and semantic delimiters.
pub open spec fn spec_operador() -> Rgb {
    Rgb { r: 0xE7, g: 0xD7, b: 0xFF }
}

/// Operators and semantic delimiters.
#[verifier::when_used_as_spec(spec_operador)]
pub fn operador() -> (c: Rgb)
    ensures
        c == spec_operador(),
{
    Rgb { r: 0xE7, g: 0xD7, b: 0xFF }
}

/// Error indication.
pub open spec fn spec_erro() -> Rgb {
    Rgb { r: 0xFF, g: 0x5D, b: 0x73 }
}

/// Error indication.
#[verifier::when_used_as_spec(spec_erro)]
pub fn erro() -> (c: Rgb)
    ensures
        c == spec_erro(),
{
    Rgb { r: 0xFF, g: 0x5D, b: 0x73 }
}

/// Warning indication.
pub open spec fn spec_aviso() -> Rgb {
    Rgb { r: 0xFF, g: 0xB8, b: 0x6B }
}

/// Warning indication.
#[verifier::when_used_as_spec(spec_aviso)]
pub fn aviso() -> (c: Rgb)
    ensures
        c == spec_aviso(),
{
    Rgb { r: 0xFF, g: 0xB8, b: 0x6B }
}

/// Success indication.
pub open spec fn spec_sucesso() -> Rgb {
    Rgb { r: 0x72, g: 0xF1, b: 0xB8 }
}

/// Success indication.
#[verifier::when_used_as_spec(spec_sucesso)]
pub fn sucesso() -> (c: Rgb)
    ensures
        c == spec_sucesso(),
{
    Rgb { r: 0x72, g: 0xF1, b: 0xB8 }
}

/// Cursor colour.
pub open spec fn spec_cursor() -> Rgb {
    Rgb { r: 0xFF, g: 0x4F, b: 0xCB }
}

/// Cursor colour.
#[verifier::when_used_as_spec(spec_cursor)]
pub fn cursor() -> (c: Rgb)
    ensures
        c == spec_cursor(),
{
    Rgb { r: 0xFF, g: 0x4F, b: 0xCB }
}

/// Selection background.
pub open spec fn spec_selecao() -> Rgb {
    Rgb { r: 0x2A, g: 0x1F, b: 0x3A }
}

/// Selection background.
#[verifier::when_used_as_spec(spec_selecao)]
pub fn selecao() -> (c: Rgb)
    ensures
        c == spec_selecao(),
{
    Rgb { r: 0x2A, g: 0x1F, b: 0x3A }
}

/// Semantic grouping of every palette colour.
#[derive(Debug, Clone, Copy)]
pub struct Tema {
    pub fundo_principal: Rgb,
    pub fundo_secundario: Rgb,
    pub texto_normal: Rgb,
    pub texto_suave: Rgb,
    pub keyword: Rgb,
    pub tipo: Rgb,
    pub string: Rgb,
    pub numero: Rgb,
    pub funcao: Rgb,
    pub operador: Rgb,
    pub erro: Rgb,
    pub aviso: Rgb,
    pub sucesso: Rgb,
    pub cursor: Rgb,
    pub selecao: Rgb,
}

/// The default Pinker theme.
pub open spec fn spec_tema_pinker() -> Tema {
    Tema {
        fundo_principal: spec_fundo_principal(),
        fundo_secundario: spec_fundo_secundario(),
        texto_normal: spec_texto_normal(),
        texto_suave: spec_texto_suave(),
        keyword: spec_keyword(),
        tipo: spec_tipo(),
        string: spec_string(),
        numero: spec_numero(),
        funcao: spec_funcao(),
        operador: spec_operador(),
        erro: spec_erro(),
        aviso: spec_aviso(),
        sucesso: spec_sucesso(),
        cursor: spec_cursor(),
        selecao: spec_selecao(),
    }
}

/// The default Pinker theme.
#[verifier::when_used_as_spec(spec_tema_pinker)]
pub fn tema_pinker() -> (t: Tema)
    ensures
        t == spec_tema_pinker(),
{
    Tema {
        fundo_principal: fundo_principal(),
        fundo_secundario: fundo_secundario(),
        texto_normal: texto_normal(),
        texto_suave: texto_suave(),
        keyword: keyword(),
        tipo: tipo(),
        string: string(),
        numero: numero(),
        funcao: funcao(),
        operador: operador(),
        erro: erro(),
        aviso: aviso(),
        sucesso: sucesso(),
        cursor: cursor(),
        selecao: selecao(),
    }
}

/// ANSI reset.
pub const RESET: &'static str = "\x1b[0m";

/// `fg(cor) + texto + reset`.
pub fn colorir(cor: Rgb, texto: &str) -> (s: String)
    ensures
        s@ == ansi_of(seq!['3', '8'], cor) + texto@ + reset_seq(),
{
    let mut out: Vec<char> = Vec::new();
    push_ansi(&mut out, '3', '8', cor);
    push_str_chars(&mut out, texto);
    push_reset(&mut out);
    string_from(&out)
}

/// `fg(fg) + bg(bg) + texto + reset`.
pub fn colorir_com_fundo(fg: Rgb, bg: Rgb, texto: &str) -> (s: String)
    ensures
        s@ == ansi_of(seq!['3', '8'], fg) + ansi_of(seq!['4', '8'], bg) + texto@ + reset_seq(),
{
    let mut out: Vec<char> = Vec::new();
    push_ansi(&mut out, '3', '8', fg);
    push_ansi(&mut out, '4', '8', bg);
    push_str_chars(&mut out, texto);
    push_reset(&mut out);
    string_from(&out)
}

fn styled(code: char, cor: Rgb, texto: &str) -> (s: String)
    ensures
        s@ == sgr(code) + ansi_of(seq!['3', '8'], cor) + texto@ + reset_seq(),
{
    let mut out: Vec<char> = Vec::new();
    push_sgr(&mut out, code);
    push_ansi(&mut out, '3', '8', cor);
    push_str_chars(&mut out, texto);
    push_reset(&mut out);
    string_from(&out)
}

/// Bold, then the colour.
pub fn negrito(cor: Rgb, texto: &str) -> (s: String)
    ensures
        s@ == sgr('1') + ansi_of(seq!['3', '8'], cor) + texto@ + reset_seq(),
{
    styled('1', cor, texto)
}

/// Italic, then the colour.
pub fn italico(cor: Rgb, texto: &str) -> (s: String)
    ensures
        s@ == sgr('3') + ansi_of(seq!['3', '8'], cor) + texto@ + reset_seq(),
{
    styled('3', cor, texto)
}

/// Underline, then the colour.
pub fn sublinhado(cor: Rgb, texto: &str) -> (s: String)
    ensures
        s@ == sgr('4') + ansi_of(seq!['3', '8'], cor) + texto@ + reset_seq(),
{
    styled('4', cor, texto)
}

/// [`colorir`] unless colour is switched off, in which case the bare text.
/// `sem_cor` is the caller's reading of `NO_COLOR` / `--no-color`.
pub fn colorir_se(cor: Rgb, texto: &str, sem_cor: bool) -> (s: String)
    ensures
        sem_cor ==> s@ == texto@,
        !sem_cor ==> s@ == ansi_of(seq!['3', '8'], cor) + texto@ + reset_seq(),
{
    if sem_cor {
        let v = chars_of(texto);
        string_from(&v)
    } else {
        colorir(cor, texto)
    }
}

/// [`negrito`] unless colour is switched off, in which case the bare text.
pub fn negrito_se(cor: Rgb, texto: &str, sem_cor: bool) -> (s: String)
    ensures
        sem_cor ==> s@ == texto@,
        !sem_cor ==> s@ == sgr('1') + ansi_of(seq!['3', '8'], cor) + texto@ + reset_seq(),
{
    if sem_cor {
        let v = chars_of(texto);
        string_from(&v)
    } else {
        negrito(cor, texto)
    }
}

/// The text of one summary line: a label padded to the value column, then
/// the colour's hexadecimal form.
pub open spec fn summary_line(label: Seq<char>, c: Rgb) -> Seq<char> {
    label + hex_string_of(c)
}

fn push_line(out: &mut Vec<char>, label: &str, c: Rgb)
    ensures
        final(out)@ == old(out)@ + summary_line(label@, c),
{
    push_str_chars(out, label);
    push_hex(out, c);
}

/// The palette summary in editor-reference form: a title and one line per
/// theme colour, each ending in the colour's `#RRGGBB`.
pub open spec fn resumo_de(t: Tema) -> Seq<char> {
    "Pinker — Paleta de Cores\n========================\n\nFundo principal       "@ + hex_string_of(
        t.fundo_principal,
    ) + "\nFundo secundário      "@ + hex_string_of(t.fundo_secundario) + "\nTexto normal          "@
        + hex_string_of(t.texto_normal) + "\nTexto suave           "@ + hex_string_of(
        t.texto_suave,
    ) + "\nKeyword               "@ + hex_string_of(t.keyword) + "\nTipos                 "@
        + hex_string_of(t.tipo) + "\nStrings               "@ + hex_string_of(t.string)
        + "\nNúmeros               "@ + hex_string_of(t.numero) + "\nFunções               "@
        + hex_string_of(t.funcao) + "\nOperadores            "@ + hex_string_of(t.operador)
        + "\nErro                  "@ + hex_string_of(t.erro) + "\nAviso                 "@
        + hex_string_of(t.aviso) + "\nSucesso               "@ + hex_string_of(t.sucesso)
        + "\nCursor                "@ + hex_string_of(t.cursor) + "\nSeleção               "@
        + hex_string_of(t.selecao)
}

/// The palette summary of [`tema_pinker`].
pub fn resumo_paleta() -> (s: String)
    ensures
        s@ == resumo_de(spec_tema_pinker()),
{
    let t = tema_pinker();
    let mut out: Vec<char> = Vec::new();
    push_line(
        &mut out,
        "Pinker — Paleta de Cores\n========================\n\nFundo principal       ",
        t.fundo_principal,
    );
    push_line(&mut out, "\nFundo secundário      ", t.fundo_secundario);
    push_line(&mut out, "\nTexto normal          ", t.texto_normal);
    push_line(&mut out, "\nTexto suave           ", t.texto_suave);
    push_line(&mut out, "\nKeyword               ", t.keyword);
    push_line(&mut out, "\nTipos                 ", t.tipo);
    push_line(&mut out, "\nStrings               ", t.string);
    push_line(&mut out, "\nNúmeros               ", t.numero);
    push_line(&mut out, "\nFunções               ", t.funcao);
    push_line(&mut out, "\nOperadores            ", t.operador);
    push_line(&mut out, "\nErro                  ", t.erro);
    push_line(&mut out, "\nAviso                 ", t.aviso);
    push_line(&mut out, "\nSucesso               ", t.sucesso);
    push_line(&mut out, "\nCursor                ", t.cursor);
    push_line(&mut out, "\nSeleção               ", t.selecao);
    assert(out@ =~= resumo_de(t));
    string_from(&out)
}

} // verus!
