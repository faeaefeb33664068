//! Single authority over the native symbol boundary: which Pinker identity
//! produces which native symbol (the entrypoint), which ELF binding each
//! emitted definition receives (`STB_LOCAL`/`STB_GLOBAL`), which namespaces
//! belong to Pinker and are refused early in the source, the injective
//! encoding of generated local labels, and the check of the set of emitted
//! definitions before the assembly is handed to the external toolchain.
use crate::text::{
    chars_of, decimal, hex_lower, push_all, push_decimal, push_str_chars, lemma_seq_lt_irrefl_eq, lemma_seq_lt_total, lemma_seq_lt_trans, seq_lt,
    string_from, vec_eq, vec_lt,
};
use vstd::prelude::*;

verus! {

/// Pinker source identity of the entrypoint.
pub const ENTRYPOINT_SOURCE_IDENTITY: &'static str = "principal";

/// Platform symbol of the entrypoint on the assemblable surface (C ABI).
pub const ENTRYPOINT_NATIVE_SYMBOL: &'static str = "main";

/// Boot symbol of the entrypoint on the freestanding surface.
pub const FREESTANDING_ENTRYPOINT_SYMBOL: &'static str = "_start";

/// Historical prefix of the internal intrinsics materialized by lowering.
pub const COMPILER_INTERNAL_PREFIX: &'static str = "__pinker_internal_";

/// Prefix of the native runtime ABI namespace.
pub const RUNTIME_ABI_PREFIX: &'static str = "pinker_";

/// Prefix under which the parser materializes each anonymous `carinho`.
pub const ANONYMOUS_CALLABLE_PREFIX: &'static str = "__anon_carinho_";

/// Prefix of the injective local labels emitted by the backend.
pub const INJECTIVE_LOCAL_LABEL_PREFIX: &'static str = ".Lp";

/// Rendering surface.
#[derive(Debug, Clone, Copy, PartialEq, Eq, Structural)]
pub enum NativeSurface {
    /// Assemblable `.s` handed to the external toolchain: the Pinker identity
    /// becomes an ABI symbol, `principal` produces `main`.
    Assemblable,
    /// Annotative textual `.s` (`pinker.text.v0`): the Pinker spelling is kept.
    TextualAbi,
}

/// `true` exactly for the entrypoint's source identity.
pub fn is_entrypoint(source_name: &str) -> (b: bool)
    ensures
        b == (source_name@ == ENTRYPOINT_SOURCE_IDENTITY@),
{
    let v = chars_of(source_name);
    let e = chars_of(ENTRYPOINT_SOURCE_IDENTITY);
    vec_eq(&v, &e)
}

/// Native symbol of a function on a surface: `principal -> main` on the
/// assemblable surface, the source spelling otherwise.
pub fn function_symbol(surface: NativeSurface, source_name: &str) -> (s: String)
    ensures
        surface == NativeSurface::Assemblable && source_name@ == ENTRYPOINT_SOURCE_IDENTITY@ ==> s@
            == ENTRYPOINT_NATIVE_SYMBOL@,
        !(surface == NativeSurface::Assemblable && source_name@ == ENTRYPOINT_SOURCE_IDENTITY@)
            ==> s@ == source_name@,
{
    let name = if surface == NativeSurface::Assemblable && is_entrypoint(source_name) {
        chars_of(ENTRYPOINT_NATIVE_SYMBOL)
    } else {
        chars_of(source_name)
    };
    string_from(&name)
}

/// ELF binding of an emitted definition.
#[derive(Debug, Clone, Copy, PartialEq, Eq, Structural)]
pub enum NativeBinding {
    /// `STB_LOCAL`.
    Local,
    /// `STB_GLOBAL`.
    Global,
}

/// The GAS directive of a binding applied to a symbol.
pub open spec fn directive_of(b: NativeBinding, symbol: Seq<char>) -> Seq<char> {
    match b {
        NativeBinding::Local => ".local "@ + symbol,
        NativeBinding::Global => ".globl "@ + symbol,
    }
}

impl NativeBinding {
    /// GAS directive; the only producer of `.globl`/`.local`.
    pub fn directive(self, symbol: &str) -> (s: String)
        ensures
            s@ == directive_of(self, symbol@),
    {
        let mut out: Vec<char> = Vec::new();
        match self {
            NativeBinding::Local => push_str_chars(&mut out, ".local "),
            NativeBinding::Global => push_str_chars(&mut out, ".globl "),
        }
        push_str_chars(&mut out, symbol);
        string_from(&out)
    }
}

/// Class of a definition emitted in the program object.
#[derive(Debug, Clone, Copy, PartialEq, Eq, Structural)]
pub enum NativeDefinition {
    Entrypoint,
    UserFunction,
    GeneratedFunction,
    UserGlobal,
    BackendHelper,
}

/// Who, inside Pinker, materializes names in a reserved namespace.
#[derive(Debug, Clone, Copy, PartialEq, Eq, Structural)]
pub enum NamespaceOwner {
    CompilerGenerated,
    RuntimeAbi,
    PlatformEntrypoint,
}

/// Boundary at which a reservation applies.
#[derive(Debug, Clone, Copy, PartialEq, Eq, Structural)]
pub enum ReservedScope {
    /// Every identifier position originated from source (lexer boundary).
    AnyIdentifier,
    /// Top-level definition producing a native symbol.
    SymbolDefinition,
}

/// Shape of a reservation.
#[derive(Debug, Clone, Copy)]
pub enum ReservedShape {
    Prefix(&'static str),
    Exact(&'static str),
}

/// Does the shape cover the name? A prefix covers every extension of it, an
/// exact entry covers only itself.
pub open spec fn shape_matches(shape: ReservedShape, name: Seq<char>) -> bool {
    match shape {
        ReservedShape::Prefix(p) => p@.len() <= name.len() && name.subrange(0, p@.len() as int)
            == p@,
        ReservedShape::Exact(e) => name == e@,
    }
}

/// How a reserved namespace appears in the diagnostic.
pub open spec fn rendered_of(shape: ReservedShape) -> Seq<char> {
    match shape {
        ReservedShape::Prefix(p) => "usa o prefixo '"@ + p@ + "', reservado à Pinker"@,
        ReservedShape::Exact(e) => "é o símbolo '"@ + e@ + "', reservado à Pinker"@,
    }
}

impl ReservedShape {
    fn matches(self, name: &Vec<char>) -> (b: bool)
        ensures
            b == shape_matches(self, name@),
    {
        match self {
            ReservedShape::Prefix(prefix) => {
                let p = chars_of(prefix);
                let r = crate::text::matches_at(name, 0, &p);
                assert(r == shape_matches(self, name@));
                r
            },
            ReservedShape::Exact(exact) => {
                let e = chars_of(exact);
                vec_eq(name, &e)
            },
        }
    }

    /// How the namespace appears in the diagnostic.
    pub fn rendered(self) -> (s: String)
        ensures
            s@ == rendered_of(self),
    {
        let mut out: Vec<char> = Vec::new();
        match self {
            ReservedShape::Prefix(prefix) => {
                push_str_chars(&mut out, "usa o prefixo '");
                push_str_chars(&mut out, prefix);
                push_str_chars(&mut out, "', reservado à Pinker");
            },
            ReservedShape::Exact(exact) => {
                push_str_chars(&mut out, "é o símbolo '");
                push_str_chars(&mut out, exact);
                push_str_chars(&mut out, "', reservado à Pinker");
            },
        }
        string_from(&out)
    }
}

/// A namespace owned by Pinker.
#[derive(Debug, Clone, Copy)]
pub struct PinkerOwnedNamespace {
    pub shape: ReservedShape,
    pub scope: ReservedScope,
    /// Who materializes names in this space.
    pub owner: NamespaceOwner,
    /// Why Pinker owns this space.
    pub reason: &'static str,
}

pub open spec fn ns(
    shape: ReservedShape,
    scope: ReservedScope,
    owner: NamespaceOwner,
    reason: &'static str,
) -> PinkerOwnedNamespace {
    PinkerOwnedNamespace { shape, scope, owner, reason }
}

/// The canonical table: exactly what Pinker produces — the nineteen synthetic
/// identity forms of the compiler (seventeen prefixes and two exact names),
/// the runtime prefix and the two platform entrypoint symbols. The `__`
/// superprefix the generated families share is not reserved.
pub open spec fn owned_namespaces() -> Seq<PinkerOwnedNamespace> {
    let g = NamespaceOwner::CompilerGenerated;
    let a = ReservedScope::AnyIdentifier;
    seq![
        ns(ReservedShape::Prefix(COMPILER_INTERNAL_PREFIX), a, g, REASON_INTERNAL),
        ns(ReservedShape::Prefix(ANONYMOUS_CALLABLE_PREFIX), a, g, REASON_ANON),
        ns(ReservedShape::Prefix(PREFIX_IMPL), a, g, REASON_IMPL),
        ns(ReservedShape::Prefix(PREFIX_TRAIT_DEFAULT), a, g, REASON_TRAIT_DEFAULT),
        ns(ReservedShape::Prefix(PREFIX_GEN_LEQUE), a, g, REASON_GEN_LEQUE),
        ns(ReservedShape::Prefix(PREFIX_GEN), a, g, REASON_GEN),
        ns(ReservedShape::Prefix(PREFIX_FNREF), a, g, REASON_FNREF),
        ns(ReservedShape::Prefix(PREFIX_FNPARAM), a, g, REASON_FNPARAM),
        ns(ReservedShape::Prefix(PREFIX_ITER_LISTA), a, g, REASON_ITER_LISTA),
        ns(ReservedShape::Prefix(PREFIX_ITER_MAPA), a, g, REASON_ITER_MAPA),
        ns(ReservedShape::Prefix(PREFIX_ITER_INDICE), a, g, REASON_ITER_INDICE),
        ns(ReservedShape::Prefix(PREFIX_ITER_TAMANHO), a, g, REASON_ITER_TAMANHO),
        ns(ReservedShape::Prefix(PREFIX_ITER_CURSOR), a, g, REASON_ITER_CURSOR),
        ns(ReservedShape::Prefix(PREFIX_RANGE_LIMITE), a, g, REASON_RANGE_LIMITE),
        ns(ReservedShape::Prefix(PREFIX_TENTAR_ALVO), a, g, REASON_TENTAR_ALVO),
        ns(ReservedShape::Prefix(PREFIX_PROPAGAR_ALVO), a, g, REASON_PROPAGAR_ALVO),
        ns(ReservedShape::Prefix(PREFIX_PROPAGAR_FALHA), a, g, REASON_PROPAGAR_FALHA),
        ns(ReservedShape::Exact(EXACT_ENV), a, g, REASON_ENV),
        ns(ReservedShape::Exact(EXACT_TERNARIO), a, g, REASON_TERNARIO),
        ns(
            ReservedShape::Prefix(RUNTIME_ABI_PREFIX),
            ReservedScope::SymbolDefinition,
            NamespaceOwner::RuntimeAbi,
            REASON_RUNTIME,
        ),
        ns(
            ReservedShape::Exact(ENTRYPOINT_NATIVE_SYMBOL),
            ReservedScope::SymbolDefinition,
            NamespaceOwner::PlatformEntrypoint,
            REASON_MAIN,
        ),
        ns(
            ReservedShape::Exact(FREESTANDING_ENTRYPOINT_SYMBOL),
            ReservedScope::SymbolDefinition,
            NamespaceOwner::PlatformEntrypoint,
            REASON_START,
        ),
    ]
}

pub const PREFIX_IMPL: &'static str = "__impl_";
pub const PREFIX_TRAIT_DEFAULT: &'static str = "__trait_default_check_";
pub const PREFIX_GEN_LEQUE: &'static str = "__gen_leque_";
pub const PREFIX_GEN: &'static str = "__gen_";
pub const PREFIX_FNREF: &'static str = "__fnref_env_";
pub const PREFIX_FNPARAM: &'static str = "__fnparam_";
pub const PREFIX_ITER_LISTA: &'static str = "__iter_lista_";
pub const PREFIX_ITER_MAPA: &'static str = "__iter_mapa_";
pub const PREFIX_ITER_INDICE: &'static str = "__iter_indice_";
pub const PREFIX_ITER_TAMANHO: &'static str = "__iter_tamanho_";
pub const PREFIX_ITER_CURSOR: &'static str = "__iter_cursor_";
pub const PREFIX_RANGE_LIMITE: &'static str = "__range_limite_";
pub const PREFIX_TENTAR_ALVO: &'static str = "__tentar_alvo_";
pub const PREFIX_PROPAGAR_ALVO: &'static str = "__propagar_alvo_";
pub const PREFIX_PROPAGAR_FALHA: &'static str = "__propagar_falha_";
pub const EXACT_ENV: &'static str = "__env";
pub const EXACT_TERNARIO: &'static str = "__ternario";

pub const REASON_INTERNAL: &'static str =
    "o lowering materializa as intrínsecas internas de leque e mapa sob este prefixo";
pub const REASON_ANON: &'static str =
    "o parser materializa cada `carinho` anônimo sob este prefixo";
pub const REASON_IMPL: &'static str =
    "o parser materializa cada método de `trato` implementado sob este prefixo";
pub const REASON_TRAIT_DEFAULT: &'static str =
    "o parser materializa a checagem de método padrão de `trato` sob este prefixo";
pub const REASON_GEN_LEQUE: &'static str =
    "a identidade genérica materializa cada `leque` monomorfizado sob este prefixo";
pub const REASON_GEN: &'static str =
    "a identidade genérica materializa cada função monomorfizada sob este prefixo";
pub const REASON_FNREF: &'static str =
    "o IR materializa o wrapper de referência a função top-level sob este prefixo";
pub const REASON_FNPARAM: &'static str =
    "o parser materializa cada especialização de callback estático sob este prefixo";
pub const REASON_ITER_LISTA: &'static str =
    "o parser materializa o slot de lista da iteração sob este prefixo";
pub const REASON_ITER_MAPA: &'static str =
    "o parser materializa o slot de mapa da iteração sob este prefixo";
pub const REASON_ITER_INDICE: &'static str =
    "o parser materializa o slot de índice da iteração sob este prefixo";
pub const REASON_ITER_TAMANHO: &'static str =
    "o parser materializa o slot de tamanho da iteração sob este prefixo";
pub const REASON_ITER_CURSOR: &'static str =
    "o parser materializa o slot de cursor da iteração sob este prefixo";
pub const REASON_RANGE_LIMITE: &'static str =
    "o parser materializa o slot de limite do intervalo sob este prefixo";
pub const REASON_TENTAR_ALVO: &'static str =
    "o parser materializa o alvo de `tentar` sob este prefixo";
pub const REASON_PROPAGAR_ALVO: &'static str =
    "o parser materializa o alvo da propagação de falha sob este prefixo";
pub const REASON_PROPAGAR_FALHA: &'static str =
    "o parser materializa o slot de falha da propagação sob este prefixo";
pub const REASON_ENV: &'static str =
    "é o parâmetro oculto de ambiente que o IR injeta em cada closure";
pub const REASON_TERNARIO: &'static str =
    "é a chamada sintética que o lowering emite para a escolha ternária";
pub const REASON_RUNTIME: &'static str =
    "o runtime nativo define e consome os símbolos deste prefixo em 'libpinker_rt.a'";
pub const REASON_MAIN: &'static str =
    "é o símbolo de plataforma produzido exclusivamente por 'principal'";
pub const REASON_START: &'static str =
    "é o símbolo de boot produzido exclusivamente por 'principal' no modo livre";

/// The canonical table, in order.
pub fn pinker_owned_namespaces() -> (v: Vec<PinkerOwnedNamespace>)
    ensures
        v@ == owned_namespaces(),
{
    let g = NamespaceOwner::CompilerGenerated;
    let a = ReservedScope::AnyIdentifier;
    let mut v: Vec<PinkerOwnedNamespace> = Vec::new();
    v.push(PinkerOwnedNamespace { shape: ReservedShape::Prefix(COMPILER_INTERNAL_PREFIX), scope: a, owner: g, reason: REASON_INTERNAL });
    v.push(PinkerOwnedNamespace { shape: ReservedShape::Prefix(ANONYMOUS_CALLABLE_PREFIX), scope: a, owner: g, reason: REASON_ANON });
    v.push(PinkerOwnedNamespace { shape: ReservedShape::Prefix(PREFIX_IMPL), scope: a, owner: g, reason: REASON_IMPL });
    v.push(PinkerOwnedNamespace { shape: ReservedShape::Prefix(PREFIX_TRAIT_DEFAULT), scope: a, owner: g, reason: REASON_TRAIT_DEFAULT });
    v.push(PinkerOwnedNamespace { shape: ReservedShape::Prefix(PREFIX_GEN_LEQUE), scope: a, owner: g, reason: REASON_GEN_LEQUE });
    v.push(PinkerOwnedNamespace { shape: ReservedShape::Prefix(PREFIX_GEN), scope: a, owner: g, reason: REASON_GEN });
    v.push(PinkerOwnedNamespace { shape: ReservedShape::Prefix(PREFIX_FNREF), scope: a, owner: g, reason: REASON_FNREF });
    v.push(PinkerOwnedNamespace { shape: ReservedShape::Prefix(PREFIX_FNPARAM), scope: a, owner: g, reason: REASON_FNPARAM });
    v.push(PinkerOwnedNamespace { shape: ReservedShape::Prefix(PREFIX_ITER_LISTA), scope: a, owner: g, reason: REASON_ITER_LISTA });
    v.push(PinkerOwnedNamespace { shape: ReservedShape::Prefix(PREFIX_ITER_MAPA), scope: a, owner: g, reason: REASON_ITER_MAPA });
    v.push(PinkerOwnedNamespace { shape: ReservedShape::Prefix(PREFIX_ITER_INDICE), scope: a, owner: g, reason: REASON_ITER_INDICE });
    v.push(PinkerOwnedNamespace { shape: ReservedShape::Prefix(PREFIX_ITER_TAMANHO), scope: a, owner: g, reason: REASON_ITER_TAMANHO });
    v.push(PinkerOwnedNamespace { shape: ReservedShape::Prefix(PREFIX_ITER_CURSOR), scope: a, owner: g, reason: REASON_ITER_CURSOR });
    v.push(PinkerOwnedNamespace { shape: ReservedShape::Prefix(PREFIX_RANGE_LIMITE), scope: a, owner: g, reason: REASON_RANGE_LIMITE });
    v.push(PinkerOwnedNamespace { shape: ReservedShape::Prefix(PREFIX_TENTAR_ALVO), scope: a, owner: g, reason: REASON_TENTAR_ALVO });
    v.push(PinkerOwnedNamespace { shape: ReservedShape::Prefix(PREFIX_PROPAGAR_ALVO), scope: a, owner: g, reason: REASON_PROPAGAR_ALVO });
    v.push(PinkerOwnedNamespace { shape: ReservedShape::Prefix(PREFIX_PROPAGAR_FALHA), scope: a, owner: g, reason: REASON_PROPAGAR_FALHA });
    v.push(PinkerOwnedNamespace { shape: ReservedShape::Exact(EXACT_ENV), scope: a, owner: g, reason: REASON_ENV });
    v.push(PinkerOwnedNamespace { shape: ReservedShape::Exact(EXACT_TERNARIO), scope: a, owner: g, reason: REASON_TERNARIO });
    v.push(PinkerOwnedNamespace { shape: ReservedShape::Prefix(RUNTIME_ABI_PREFIX), scope: ReservedScope::SymbolDefinition, owner: NamespaceOwner::RuntimeAbi, reason: REASON_RUNTIME });
    v.push(PinkerOwnedNamespace { shape: ReservedShape::Exact(ENTRYPOINT_NATIVE_SYMBOL), scope: ReservedScope::SymbolDefinition, owner: NamespaceOwner::PlatformEntrypoint, reason: REASON_MAIN });
    v.push(PinkerOwnedNamespace { shape: ReservedShape::Exact(FREESTANDING_ENTRYPOINT_SYMBOL), scope: ReservedScope::SymbolDefinition, owner: NamespaceOwner::PlatformEntrypoint, reason: REASON_START });
    assert(v@ =~= owned_namespaces());
    v
}

/// The first entry of `t` applying at `scope` whose shape covers `name`.
pub open spec fn first_reserved(
    t: Seq<PinkerOwnedNamespace>,
    name: Seq<char>,
    scope: ReservedScope,
) -> Option<PinkerOwnedNamespace>
    decreases t.len(),
{
    if t.len() == 0 {
        None
    } else if t[0].scope == scope && shape_matches(t[0].shape, name) {
        Some(t[0])
    } else {
        first_reserved(t.drop_first(), name, scope)
    }
}

/// Some entry of `t` owned by the compiler covers `name`.
pub open spec fn generated_in(t: Seq<PinkerOwnedNamespace>, name: Seq<char>) -> bool {
    exists|i: int|
        0 <= i < t.len() && t[i].owner == NamespaceOwner::CompilerGenerated && shape_matches(
            #[trigger] t[i].shape,
            name,
        )
}

/// The single query of the reservation: the first table entry of this
/// boundary whose shape covers the name.
pub fn reserved_namespace(name: &str, scope: ReservedScope) -> (r: Option<PinkerOwnedNamespace>)
    ensures
        r == first_reserved(owned_namespaces(), name@, scope),
{
    let table = pinker_owned_namespaces();
    let n = chars_of(name);
    let mut i: usize = 0;
    assert(table@.skip(0) =~= table@);
    while i < table.len()
        invariant
            i <= table.len(),
            table@ == owned_namespaces(),
            n@ == name@,
            first_reserved(owned_namespaces(), name@, scope) == first_reserved(
                table@.skip(i as int),
                name@,
                scope,
            ),
        decreases table.len() - i,
    {
        proof {
            assert(table@.skip(i as int).drop_first() =~= table@.skip(i + 1));
        }
        let entry = table[i];
        if entry.scope == scope && entry.shape.matches(&n) {
            return Some(entry);
        }
        i = i + 1;
    }
    proof {
        assert(table@.skip(i as int).len() == 0);
    }
    None
}

/// `true` when the name belongs to a form the compiler materializes. The
/// common `__` superprefix is not such a form.
pub fn is_compiler_generated(name: &str) -> (b: bool)
    ensures
        b == generated_in(owned_namespaces(), name@),
{
    let table = pinker_owned_namespaces();
    let n = chars_of(name);
    let mut i: usize = 0;
    while i < table.len()
        invariant
            i <= table.len(),
            table@ == owned_namespaces(),
            n@ == name@,
            forall|j: int|
                0 <= j < i ==> !(table@[j].owner == NamespaceOwner::CompilerGenerated
                    && shape_matches(#[trigger] table@[j].shape, name@)),
        decreases table.len() - i,
    {
        let entry = table[i];
        if entry.owner == NamespaceOwner::CompilerGenerated && entry.shape.matches(&n) {
            return true;
        }
        i = i + 1;
    }
    false
}

/// Class of a function from its materialized identity name.
pub open spec fn classify_spec(name: Seq<char>) -> NativeDefinition {
    if name == ENTRYPOINT_SOURCE_IDENTITY@ {
        NativeDefinition::Entrypoint
    } else if generated_in(owned_namespaces(), name) {
        NativeDefinition::GeneratedFunction
    } else {
        NativeDefinition::UserFunction
    }
}

/// Classifies a function by its identity name, consuming the canonical
/// authority of generated identities.
pub fn classify_function(source_name: &str) -> (d: NativeDefinition)
    ensures
        d == classify_spec(source_name@),
{
    if is_entrypoint(source_name) {
        NativeDefinition::Entrypoint
    } else if is_compiler_generated(source_name) {
        NativeDefinition::GeneratedFunction
    } else {
        NativeDefinition::UserFunction
    }
}

/// Only the entrypoint crosses the link unit.
pub open spec fn binding_of(definition: NativeDefinition) -> NativeBinding {
    match definition {
        NativeDefinition::Entrypoint => NativeBinding::Global,
        _ => NativeBinding::Local,
    }
}

/// Binding of an emitted definition.
pub fn native_binding(definition: NativeDefinition) -> (b: NativeBinding)
    ensures
        b == binding_of(definition),
{
    match definition {
        NativeDefinition::Entrypoint => NativeBinding::Global,
        NativeDefinition::UserFunction
        | NativeDefinition::GeneratedFunction
        | NativeDefinition::UserGlobal
        | NativeDefinition::BackendHelper => NativeBinding::Local,
    }
}

/// Binding of a function definition, from its identity name.
pub fn function_binding(source_name: &str) -> (b: NativeBinding)
    ensures
        b == binding_of(classify_spec(source_name@)),
        b == NativeBinding::Global <==> source_name@ == ENTRYPOINT_SOURCE_IDENTITY@,
{
    native_binding(classify_function(source_name))
}

/// The reserved-namespace diagnostic.
pub open spec fn reserved_message_of(name: Seq<char>, n: PinkerOwnedNamespace) -> Seq<char> {
    "E-SEMANTIC-RESERVED-NAMESPACE\nidentificador '"@ + name + "' "@ + rendered_of(n.shape) + ": "@
        + n.reason@
}

/// The single reserved-namespace diagnostic message.
pub fn reserved_namespace_message(name: &str, namespace: PinkerOwnedNamespace) -> (s: String)
    ensures
        s@ == reserved_message_of(name@, namespace),
{
    let mut out: Vec<char> = Vec::new();
    push_str_chars(&mut out, "E-SEMANTIC-RESERVED-NAMESPACE\nidentificador '");
    push_str_chars(&mut out, name);
    push_str_chars(&mut out, "' ");
    let r = namespace.shape.rendered();
    push_str_chars(&mut out, r.as_str());
    push_str_chars(&mut out, ": ");
    push_str_chars(&mut out, namespace.reason);
    assert(out@ =~= reserved_message_of(name@, namespace));
    string_from(&out)
}

/// Number of bytes of the UTF-8 encoding of a character.
pub open spec fn utf8_width(c: char) -> nat {
    if (c as u32) < 0x80 {
        1
    } else if (c as u32) < 0x800 {
        2
    } else if (c as u32) < 0x10000 {
        3
    } else {
        4
    }
}

/// Number of bytes of the UTF-8 encoding of a text (`str::len`).
pub open spec fn utf8_len(s: Seq<char>) -> nat
    decreases s.len(),
{
    if s.len() == 0 {
        0
    } else {
        utf8_len(s.drop_last()) + utf8_width(s.last())
    }
}

fn char_width(c: char) -> (w: usize)
    ensures
        w == utf8_width(c),
{
    let u = c as u32;
    if u < 0x80 {
        1
    } else if u < 0x800 {
        2
    } else if u < 0x10000 {
        3
    } else {
        4
    }
}

pub proof fn lemma_utf8_len_take(s: Seq<char>, i: int)
    requires
        0 <= i < s.len(),
    ensures
        utf8_len(s.take(i + 1)) == utf8_len(s.take(i)) + utf8_width(s[i]),
{
    assert(s.take(i + 1).drop_last() =~= s.take(i));
}

pub proof fn lemma_utf8_len_mono(s: Seq<char>, i: int, j: int)
    requires
        0 <= i <= j <= s.len(),
    ensures
        utf8_len(s.take(i)) + (j - i) <= utf8_len(s.take(j)),
    decreases j - i,
{
    if i < j {
        lemma_utf8_len_mono(s, i, j - 1);
        lemma_utf8_len_take(s, j - 1);
    }
}

/// Byte length of a character vector, or `None` above `usize::MAX`.
fn byte_len(s: &Vec<char>) -> (r: Option<usize>)
    ensures
        r matches Some(n) ==> n == utf8_len(s@),
        r is None ==> utf8_len(s@) > usize::MAX,
{
    let mut total: usize = 0;
    let mut i: usize = 0;
    while i < s.len()
        invariant
            i <= s.len(),
            total == utf8_len(s@.take(i as int)),
        decreases s.len() - i,
    {
        proof {
            lemma_utf8_len_take(s@, i as int);
        }
        let w = char_width(s[i]);
        if total > usize::MAX - w {
            proof {
                lemma_utf8_len_mono(s@, i + 1, s@.len() as int);
                assert(s@.take(s@.len() as int) =~= s@);
            }
            return None;
        }
        total = total + w;
        i = i + 1;
    }
    assert(s@.take(s@.len() as int) =~= s@);
    Some(total)
}

/// One component of an injective label: its byte length, `_`, itself.
pub open spec fn label_piece(c: Seq<char>) -> Seq<char> {
    decimal(utf8_len(c)) + seq!['_'] + c
}

/// The concatenation of the pieces of every component, in order.
pub open spec fn label_body(cs: Seq<Seq<char>>) -> Seq<char>
    decreases cs.len(),
{
    if cs.len() == 0 {
        Seq::empty()
    } else {
        label_piece(cs[0]) + label_body(cs.drop_first())
    }
}

/// The injective label of a sequence of components.
pub open spec fn label_of(cs: Seq<Seq<char>>) -> Seq<char> {
    INJECTIVE_LOCAL_LABEL_PREFIX@ + label_body(cs)
}

pub proof fn lemma_label_body_take(cs: Seq<Seq<char>>, i: int)
    requires
        0 <= i < cs.len(),
    ensures
        label_body(cs.take(i + 1)) == label_body(cs.take(i)) + label_piece(cs[i]),
    decreases i,
{
    if i == 0 {
        assert(cs.take(1).drop_first() =~= Seq::<Seq<char>>::empty());
        assert(cs.take(0) =~= Seq::<Seq<char>>::empty());
        assert(label_body(cs.take(1)) =~= label_piece(cs[0]));
    } else {
        lemma_label_body_take(cs.drop_first(), i - 1);
        assert(cs.take(i + 1).drop_first() =~= cs.drop_first().take(i));
        assert(cs.take(i).drop_first() =~= cs.drop_first().take(i - 1));
        assert(cs.take(i + 1)[0] == cs[0]);
        assert(cs.take(i)[0] == cs[0]);
        assert(cs.drop_first()[i - 1] == cs[i]);
        assert(label_body(cs.take(i + 1)) =~= label_piece(cs[0]) + label_body(cs.drop_first().take(i)));
        assert(label_body(cs.take(i)) =~= label_piece(cs[0]) + label_body(cs.drop_first().take(i - 1)));
    }
}

/// Views of a slice of string slices.
pub open spec fn strs_view(cs: Seq<&str>) -> Seq<Seq<char>> {
    cs.map_values(|c: &str| c@)
}

/// Injective local label: `.Lp` then, per component, its byte length, `_`
/// and the component.
pub fn injective_local_label(components: &[&str]) -> (s: String)
    requires
        forall|i: int| 0 <= i < components@.len() ==> utf8_len(#[trigger] components@[i]@) <= usize::MAX,
    ensures
        s@ == label_of(strs_view(components@)),
{
    let ghost cs = strs_view(components@);
    let mut out: Vec<char> = Vec::new();
    push_str_chars(&mut out, INJECTIVE_LOCAL_LABEL_PREFIX);
    let mut i: usize = 0;
    while i < components.len()
        invariant
            i <= components@.len(),
            cs == strs_view(components@),
            forall|k: int| 0 <= k < components@.len() ==> utf8_len(#[trigger] components@[k]@) <= usize::MAX,
            out@ == INJECTIVE_LOCAL_LABEL_PREFIX@ + label_body(cs.take(i as int)),
        decreases components.len() - i,
    {
        let c = chars_of(components[i]);
        let n = byte_len(&c);
        proof {
            lemma_label_body_take(cs, i as int);
            assert(cs[i as int] == components@[i as int]@);
        }
        match n {
            Some(len) => {
                push_decimal(&mut out, len as u64);
            },
            None => {
                proof {
                    assert(false);
                }
            },
        }
        out.push('_');
        push_all(&mut out, &c);
        proof {
            assert(out@ =~= INJECTIVE_LOCAL_LABEL_PREFIX@ + label_body(cs.take(i + 1)));
        }
        i = i + 1;
    }
    proof {
        assert(cs.take(components@.len() as int) =~= cs);
    }
    string_from(&out)
}

/// Decimal value of a digit.
pub open spec fn digit_value(c: char) -> nat {
    ((c as u32) - ('0' as u32)) as nat
}

pub open spec fn is_digit(c: char) -> bool {
    '0' <= c && c <= '9'
}

/// Number of leading ASCII digits.
pub open spec fn digit_run(s: Seq<char>) -> nat
    decreases s.len(),
{
    if s.len() > 0 && is_digit(s[0]) {
        1 + digit_run(s.drop_first())
    } else {
        0
    }
}

/// Value of a run of decimal digits.
pub open spec fn digits_value(s: Seq<char>) -> nat
    decreases s.len(),
{
    if s.len() == 0 {
        0
    } else {
        digits_value(s.drop_last()) * 10 + digit_value(s.last())
    }
}

/// Number of leading characters of `s` whose UTF-8 length is exactly `n`.
pub open spec fn chars_for_bytes(s: Seq<char>, n: nat) -> Option<nat>
    decreases s.len(),
{
    if n == 0 {
        Some(0)
    } else if s.len() == 0 || utf8_width(s[0]) > n {
        None
    } else {
        match chars_for_bytes(s.drop_first(), (n - utf8_width(s[0])) as nat) {
            Some(k) => Some(k + 1),
            None => None,
        }
    }
}

/// Decoding of a label body, the inverse of [`label_body`] on its image;
/// `None` for text that no sequence of components produces.
pub open spec fn decode_body(s: Seq<char>) -> Option<Seq<Seq<char>>>
    decreases s.len(),
{
    if s.len() == 0 {
        Some(Seq::empty())
    } else {
        let d = digit_run(s);
        if d == 0 || d >= s.len() || s[d as int] != '_' || digits_value(s.take(d as int))
            > usize::MAX {
            None
        } else {
            let rest = s.skip(d as int + 1);
            match chars_for_bytes(rest, digits_value(s.take(d as int))) {
                None => None,
                Some(k) => if k > rest.len() {
                    None
                } else {
                    match decode_body(rest.skip(k as int)) {
                        None => None,
                        Some(tail) => Some(seq![rest.take(k as int)] + tail),
                    }
                },
            }
        }
    }
}

/// Decoding of a whole label.
pub open spec fn decode_label(s: Seq<char>) -> Option<Seq<Seq<char>>> {
    let p = INJECTIVE_LOCAL_LABEL_PREFIX@;
    if p.len() <= s.len() && s.take(p.len() as int) == p {
        decode_body(s.skip(p.len() as int))
    } else {
        None
    }
}


/// Prefixing a decoded component to a decoded tail.
pub open spec fn cons_decoded(
    done: Seq<Seq<char>>,
    tail: Option<Seq<Seq<char>>>,
) -> Option<Seq<Seq<char>>> {
    match tail {
        None => None,
        Some(t) => Some(done + t),
    }
}

pub proof fn lemma_digits_value_take(t: Seq<char>, k: int)
    requires
        0 <= k < t.len(),
    ensures
        digits_value(t.take(k + 1)) == digits_value(t.take(k)) * 10 + digit_value(t[k]),
{
    assert(t.take(k + 1).drop_last() =~= t.take(k));
}

pub proof fn lemma_digits_value_mono(t: Seq<char>, k: int, m: int)
    requires
        0 <= k <= m <= t.len(),
    ensures
        digits_value(t.take(k)) <= digits_value(t.take(m)),
    decreases m - k,
{
    if k < m {
        lemma_digits_value_mono(t, k, m - 1);
        lemma_digits_value_take(t, m - 1);
        assert(digits_value(t.take(m - 1)) <= digits_value(t.take(m - 1)) * 10) by (nonlinear_arith);
    }
}

/// Recovers the components of a label produced by
/// [`injective_local_label`]; `None` for any text that is not a well-formed
/// label of this authority.
pub fn decode_injective_local_label(label: &str) -> (r: Option<Vec<String>>)
    ensures
        decode_label(label@) is None ==> r is None,
        decode_label(label@) matches Some(cs) ==> (r matches Some(v) && v@.len() == cs.len() && (
        forall|i: int| 0 <= i < cs.len() ==> #[trigger] v@[i]@ == cs[i])),
{
    let s = chars_of(label);
    let p = chars_of(INJECTIVE_LOCAL_LABEL_PREFIX);
    if !crate::text::matches_at(&s, 0, &p) {
        return None;
    }
    let p0 = p.len();
    let ghost body = s@.skip(p0 as int);
    assert(decode_label(label@) == decode_body(body));
    let mut out: Vec<String> = Vec::new();
    let ghost mut done: Seq<Seq<char>> = Seq::empty();
    let mut pos: usize = p0;
    assert(s@.skip(pos as int) =~= body);
    while pos < s.len()
        invariant
            p0 <= pos <= s.len(),
            body == s@.skip(p0 as int),
            decode_label(label@) == decode_body(body),
            decode_body(body) == cons_decoded(done, decode_body(s@.skip(pos as int))),
            out@.len() == done.len(),
            forall|i: int| 0 <= i < done.len() ==> #[trigger] out@[i]@ == done[i],
        decreases s.len() - pos,
    {
        let ghost t = s@.skip(pos as int);
        // Leading digits and their value.
        let mut j: usize = pos;
        let mut value: usize = 0;
        let mut overflow = false;
        assert(t.take(0) =~= Seq::<char>::empty());
        while j < s.len() && '0' <= s[j] && s[j] <= '9'
            invariant
                pos <= j <= s.len(),
                t == s@.skip(pos as int),
                digit_run(t) == (j - pos) + digit_run(s@.skip(j as int)),
                !overflow ==> value == digits_value(t.take(j - pos)),
                overflow ==> digits_value(t.take(j - pos)) > usize::MAX,
            decreases s.len() - j,
        {
            proof {
                assert(s@.skip(j as int).drop_first() =~= s@.skip(j + 1));
                lemma_digits_value_take(t, j - pos);
                assert(t[j - pos] == s@[j as int]);
                if overflow {
                    lemma_digits_value_mono(t, j - pos, j - pos + 1);
                }
            }
            let dv = (s[j] as u32 - '0' as u32) as usize;
            if !overflow {
                if value > (usize::MAX - dv) / 10 {
                    overflow = true;
                    assert(value * 10 + dv > usize::MAX) by (nonlinear_arith)
                        requires
                            value > (usize::MAX - dv) / 10,
                            dv <= 9,
                    ;
                } else {
                    assert(value * 10 + dv <= usize::MAX) by (nonlinear_arith)
                        requires
                            value <= (usize::MAX - dv) / 10,
                            dv <= 9,
                    ;
                    value = value * 10 + dv;
                }
            }
            j = j + 1;
        }
        proof {
            if j < s.len() {
                assert(s@.skip(j as int)[0] == s@[j as int]);
            }
            assert(digit_run(s@.skip(j as int)) == 0);
        }
        let d = j - pos;
        assert(t.len() == s.len() - pos);
        assert(digit_run(t) == d);
        if d == 0 || j >= s.len() || s[j] != '_' || overflow {
            proof {
                if j < s.len() {
                    assert(t[d as int] == s@[j as int]);
                }
                assert(decode_body(t) is None);
            }
            return None;
        }
        assert(t[d as int] == s@[j as int]);
        // The component: exactly `value` bytes after the underscore.
        let start = j + 1;
        let ghost rest = t.skip(d as int + 1);
        assert(rest =~= s@.skip(start as int));
        let mut q: usize = start;
        let mut remaining: usize = value;
        while remaining > 0
            invariant
                start <= q <= s.len(),
                start == j + 1,
                j == pos + d,
                pos < s.len(),
                t == s@.skip(pos as int),
                t.len() == s.len() - pos,
                d > 0,
                (d as int) < t.len(),
                t[d as int] == '_',
                digit_run(t) == d,
                value == digits_value(t.take(d as int)),
                decode_body(body) == cons_decoded(done, decode_body(t)),
                decode_label(label@) == decode_body(body),
                rest == t.skip(d as int + 1),
                rest == s@.skip(start as int),
                chars_for_bytes(rest, value as nat) == (match chars_for_bytes(
                    s@.skip(q as int),
                    remaining as nat,
                ) {
                    Some(k) => Some((k + (q - start)) as nat),
                    None => None::<nat>,
                }),
            decreases remaining,
        {
            if q >= s.len() {
                proof {
                    assert(s@.skip(q as int).len() == 0);
                    assert(decode_body(t) is None);
                }
                return None;
            }
            let w = char_width(s[q]);
            proof {
                assert(s@.skip(q as int)[0] == s@[q as int]);
                assert(s@.skip(q as int).drop_first() =~= s@.skip(q + 1));
            }
            if w > remaining {
                proof {
                    assert(decode_body(t) is None);
                }
                return None;
            }
            remaining = remaining - w;
            q = q + 1;
        }
        let k_exec = q - start;
        assert(k_exec <= rest.len());
        assert(rest.skip(k_exec as int) =~= s@.skip(q as int));
        let component = crate::text::slice_vec(&s, start, q);
        assert(component@ =~= rest.take(k_exec as int));
        proof {
            done = done.push(component@);
        }
        out.push(string_from(&component));
        pos = q;
    }
    proof {
        assert(s@.skip(pos as int) =~= Seq::<char>::empty());
        assert(done + Seq::<Seq<char>>::empty() =~= done);
    }
    Some(out)
}


pub(crate) proof fn lemma_decimal_digits(n: nat)
    ensures
        decimal(n).len() >= 1,
        forall|i: int| 0 <= i < decimal(n).len() ==> is_digit(#[trigger] decimal(n)[i]),
    decreases n,
{
    if n >= 10 {
        lemma_decimal_digits(n / 10);
    }
}

proof fn lemma_digit_run_prefix(x: Seq<char>, y: Seq<char>)
    requires
        forall|i: int| 0 <= i < x.len() ==> is_digit(#[trigger] x[i]),
        y.len() > 0,
        !is_digit(y[0]),
    ensures
        digit_run(x + y) == x.len(),
    decreases x.len(),
{
    if x.len() == 0 {
        assert(x + y =~= y);
    } else {
        assert((x + y).drop_first() =~= x.drop_first() + y);
        lemma_digit_run_prefix(x.drop_first(), y);
    }
}

proof fn lemma_digit_value_hex(d: nat)
    requires
        d < 10,
    ensures
        digit_value(hex_lower(d)) == d,
{
}

pub(crate) proof fn lemma_digits_value_decimal(n: nat)
    ensures
        digits_value(decimal(n)) == n,
    decreases n,
{
    lemma_digit_value_hex(n % 10);
    if n < 10 {
        lemma_digit_value_hex(n);
        assert(decimal(n).drop_last() =~= Seq::<char>::empty());
        assert(decimal(n).last() == hex_lower(n));
        assert(digits_value(Seq::<char>::empty()) == 0);
        assert(digits_value(decimal(n)) == digits_value(decimal(n).drop_last()) * 10 + digit_value(
            decimal(n).last(),
        ));
    } else {
        lemma_digits_value_decimal(n / 10);
        assert(decimal(n).drop_last() =~= decimal(n / 10));
        assert(decimal(n).last() == hex_lower(n % 10));
        assert(n == (n / 10) * 10 + n % 10);
    }
}

proof fn lemma_utf8_len_first(c: Seq<char>)
    requires
        c.len() > 0,
    ensures
        utf8_len(c) == utf8_width(c[0]) + utf8_len(c.drop_first()),
    decreases c.len(),
{
    if c.len() == 1 {
        assert(c.drop_last() =~= Seq::<char>::empty());
        assert(c.drop_first() =~= Seq::<char>::empty());
    } else {
        lemma_utf8_len_first(c.drop_last());
        assert(c.drop_last().drop_first() =~= c.drop_first().drop_last());
        assert(c.drop_first().last() == c.last());
    }
}

proof fn lemma_chars_for_bytes(c: Seq<char>, rest: Seq<char>)
    ensures
        chars_for_bytes(c + rest, utf8_len(c)) == Some(c.len()),
    decreases c.len(),
{
    if c.len() == 0 {
    } else {
        lemma_utf8_len_first(c);
        assert((c + rest)[0] == c[0]);
        assert((c + rest).drop_first() =~= c.drop_first() + rest);
        lemma_chars_for_bytes(c.drop_first(), rest);
    }
}

proof fn lemma_decode_body_roundtrip(cs: Seq<Seq<char>>)
    requires
        forall|i: int| 0 <= i < cs.len() ==> utf8_len(#[trigger] cs[i]) <= usize::MAX,
    ensures
        decode_body(label_body(cs)) == Some(cs),
    decreases cs.len(),
{
    if cs.len() == 0 {
        assert(label_body(cs) =~= Seq::<char>::empty());
        assert(cs =~= Seq::<Seq<char>>::empty());
    } else {
        let c = cs[0];
        let n = utf8_len(c);
        let dec = decimal(n);
        let tail = cs.drop_first();
        assert forall|i: int| 0 <= i < tail.len() implies utf8_len(#[trigger] tail[i]) <= usize::MAX by {
            assert(tail[i] == cs[i + 1]);
        }
        lemma_decode_body_roundtrip(tail);
        let s = label_body(cs);
        let after = seq!['_'] + c + label_body(tail);
        assert(s =~= dec + after);
        lemma_decimal_digits(n);
        lemma_digit_run_prefix(dec, after);
        let d = digit_run(s);
        assert(d == dec.len());
        assert(s[d as int] == '_');
        assert(s.take(d as int) =~= dec);
        lemma_digits_value_decimal(n);
        let rest = s.skip(d as int + 1);
        assert(rest =~= c + label_body(tail));
        lemma_chars_for_bytes(c, label_body(tail));
        assert(rest.skip(c.len() as int) =~= label_body(tail));
        assert(rest.take(c.len() as int) =~= c);
        assert(seq![c] + tail =~= cs);
    }
}

/// Recoverability, and therefore injectivity, of the local label encoding:
/// decoding the label of any sequence of components gives back exactly that
/// sequence.
pub proof fn law_label_roundtrip(cs: Seq<Seq<char>>)
    requires
        forall|i: int| 0 <= i < cs.len() ==> utf8_len(#[trigger] cs[i]) <= usize::MAX,
    ensures
        decode_label(label_of(cs)) == Some(cs),
{
    let p = INJECTIVE_LOCAL_LABEL_PREFIX@;
    let s = label_of(cs);
    assert(s.take(p.len() as int) =~= p);
    assert(s.skip(p.len() as int) =~= label_body(cs));
    lemma_decode_body_roundtrip(cs);
}

/// Distinct component sequences never produce the same label.
pub proof fn law_label_injective(a: Seq<Seq<char>>, b: Seq<Seq<char>>)
    requires
        forall|i: int| 0 <= i < a.len() ==> utf8_len(#[trigger] a[i]) <= usize::MAX,
        forall|i: int| 0 <= i < b.len() ==> utf8_len(#[trigger] b[i]) <= usize::MAX,
        label_of(a) == label_of(b),
    ensures
        a == b,
{
    law_label_roundtrip(a);
    law_label_roundtrip(b);
}


/// Two distinct identities rendering to the same emitted definition.
#[derive(Debug, Clone, PartialEq, Eq)]
pub struct EmittedCollision {
    pub symbol: String,
    pub first_identity: String,
    pub second_identity: String,
}

/// Order key of a collision: symbol, then second identity.
pub open spec fn collision_lt(a: EmittedCollision, b: EmittedCollision) -> bool {
    ||| seq_lt(a.symbol@, b.symbol@)
    ||| (a.symbol@ == b.symbol@ && seq_lt(a.second_identity@, b.second_identity@))
}

/// The set of definitions the renderer is about to emit: each symbol with
/// the Pinker identity that first produced it, and every collision seen.
#[derive(Debug, Default)]
pub struct EmittedDefinitions {
    entries: Vec<(String, String)>,
    collisions: Vec<EmittedCollision>,
}

/// Index of the recorded definition of `symbol`, if any.
pub open spec fn defined_at(entries: Seq<(String, String)>, symbol: Seq<char>) -> Option<int> {
    if exists|i: int| 0 <= i < entries.len() && (#[trigger] entries[i]).0@ == symbol {
        Some(choose|i: int| 0 <= i < entries.len() && (#[trigger] entries[i]).0@ == symbol)
    } else {
        None
    }
}

impl EmittedDefinitions {
    /// Each symbol is recorded at most once.
    pub closed spec fn wf(self) -> bool {
        forall|i: int, j: int|
            0 <= i < j < self.entries@.len() ==> (#[trigger] self.entries@[i]).0@ != (
            #[trigger] self.entries@[j]).0@
    }

    /// The recorded `(symbol, identity)` pairs, in first-definition order.
    pub closed spec fn definitions(self) -> Seq<(String, String)> {
        self.entries@
    }

    /// Every collision recorded so far, in the order seen.
    pub closed spec fn collisions_seen(self) -> Seq<EmittedCollision> {
        self.collisions@
    }

    pub fn new() -> (d: Self)
        ensures
            d.wf(),
            d.definitions().len() == 0,
            d.collisions_seen().len() == 0,
    {
        EmittedDefinitions { entries: Vec::new(), collisions: Vec::new() }
    }

    /// Records an emitted definition and the identity that produced it. The
    /// same identity on the same symbol is deliberate many-to-one and legal;
    /// a different identity on an already defined symbol is a collision.
    pub fn define(&mut self, symbol: &str, identity: &str)
        requires
            old(self).wf(),
        ensures
            final(self).wf(),
            match defined_at(old(self).definitions(), symbol@) {
                None => final(self).definitions().len() == old(self).definitions().len() + 1
                    && final(self).definitions().last().0@ == symbol@
                    && final(self).definitions().last().1@ == identity@
                    && final(self).definitions().drop_last() == old(self).definitions()
                    && final(self).collisions_seen() == old(self).collisions_seen(),
                Some(i) => final(self).definitions() == old(self).definitions() && if old(
                    self,
                ).definitions()[i].1@ == identity@ {
                    final(self).collisions_seen() == old(self).collisions_seen()
                } else {
                    final(self).collisions_seen().len() == old(self).collisions_seen().len() + 1
                        && final(self).collisions_seen().drop_last() == old(self).collisions_seen()
                        && final(self).collisions_seen().last().symbol@ == symbol@
                        && final(self).collisions_seen().last().first_identity@ == old(
                        self,
                    ).definitions()[i].1@ && final(self).collisions_seen().last().second_identity@
                        == identity@
                },
            },
    {
        let sym = chars_of(symbol);
        let id = chars_of(identity);
        let mut i: usize = 0;
        while i < self.entries.len()
            invariant
                i <= self.entries@.len(),
                self.wf(),
                *self == *old(self),
                sym@ == symbol@,
                id@ == identity@,
                forall|j: int| 0 <= j < i ==> (#[trigger] self.entries@[j]).0@ != symbol@,
            decreases self.entries.len() - i,
        {
            let k = chars_of(self.entries[i].0.as_str());
            if vec_eq(&k, &sym) {
                let ghost idx = i as int;
                proof {
                    assert(defined_at(self.entries@, symbol@) is Some);
                    let c = choose|j: int|
                        0 <= j < self.entries@.len() && (#[trigger] self.entries@[j]).0@ == symbol@;
                    assert(c == idx) by {
                        if c != idx {
                            if c < idx {
                                assert(self.entries@[c].0@ != self.entries@[idx].0@);
                            } else {
                                assert(self.entries@[idx].0@ != self.entries@[c].0@);
                            }
                        }
                    }
                }
                let previous = chars_of(self.entries[i].1.as_str());
                if !vec_eq(&previous, &id) {
                    let collision = EmittedCollision {
                        symbol: string_from(&sym),
                        first_identity: string_from(&previous),
                        second_identity: string_from(&id),
                    };
                    self.collisions.push(collision);
                    assert(self.collisions@.drop_last() =~= old(self).collisions@);
                }
                return;
            }
            i = i + 1;
        }
        let entry = (string_from(&sym), string_from(&id));
        self.entries.push(entry);
        proof {
            assert(self.entries@.drop_last() =~= old(self).entries@);
        }
    }

    /// The first collision in deterministic order (by symbol, then second
    /// identity; the earliest recorded among equals), if any.
    pub fn first_collision(&self) -> (r: Option<&EmittedCollision>)
        ensures
            r is None <==> self.collisions_seen().len() == 0,
            r matches Some(c) ==> exists|k: int|
                0 <= k < self.collisions_seen().len() && *c == self.collisions_seen()[k] && (forall|
                    j: int,
                |
                    0 <= j < k ==> collision_lt(
                        self.collisions_seen()[k],
                        #[trigger] self.collisions_seen()[j],
                    )) && (forall|j: int|
                    k < j < self.collisions_seen().len() ==> !collision_lt(
                        #[trigger] self.collisions_seen()[j],
                        self.collisions_seen()[k],
                    )),
    {
        if self.collisions.len() == 0 {
            return None;
        }
        let mut best: usize = 0;
        let mut j: usize = 1;
        while j < self.collisions.len()
            invariant
                1 <= j <= self.collisions@.len(),
                best < j,
                forall|m: int| 0 <= m < best ==> collision_lt(
                    self.collisions@[best as int],
                    #[trigger] self.collisions@[m],
                ),
                forall|m: int| best < m < j ==> !collision_lt(
                    #[trigger] self.collisions@[m],
                    self.collisions@[best as int],
                ),
            decreases self.collisions.len() - j,
        {
            if collision_less(&self.collisions[j], &self.collisions[best]) {
                proof {
                    assert forall|m: int| 0 <= m < j implies collision_lt(
                        self.collisions@[j as int],
                        #[trigger] self.collisions@[m],
                    ) by {
                        lemma_collision_lt_trans_or(
                            self.collisions@[j as int],
                            self.collisions@[best as int],
                            self.collisions@[m],
                        );
                    }
                }
                best = j;
            }
            j = j + 1;
        }
        let r = &self.collisions[best];
        proof {
            let k = best as int;
            assert(0 <= k < self.collisions_seen().len() && *r == self.collisions_seen()[k] && (
            forall|j: int|
                0 <= j < k ==> collision_lt(
                    self.collisions_seen()[k],
                    #[trigger] self.collisions_seen()[j],
                )) && (forall|j: int|
                k < j < self.collisions_seen().len() ==> !collision_lt(
                    #[trigger] self.collisions_seen()[j],
                    self.collisions_seen()[k],
                )));
        }
        Some(r)
    }

    /// Number of distinct emitted symbols.
    pub fn len(&self) -> (n: usize)
        ensures
            n == self.definitions().len(),
    {
        self.entries.len()
    }

    /// No definition recorded yet.
    pub fn is_empty(&self) -> (b: bool)
        ensures
            b == (self.definitions().len() == 0),
    {
        self.entries.len() == 0
    }
}

proof fn lemma_collision_lt_trans_or(a: EmittedCollision, b: EmittedCollision, c: EmittedCollision)
    requires
        collision_lt(a, b),
        collision_lt(b, c) || !collision_lt(c, b),
    ensures
        collision_lt(a, c),
{
    lemma_seq_lt_total(b.symbol@, c.symbol@);
    lemma_seq_lt_total(b.second_identity@, c.second_identity@);
    if seq_lt(a.symbol@, b.symbol@) {
        if seq_lt(b.symbol@, c.symbol@) {
            lemma_seq_lt_trans(a.symbol@, b.symbol@, c.symbol@);
        } else if b.symbol@ == c.symbol@ {
        } else {
            // c.symbol < b.symbol, so c < b, contradicting the hypothesis
            lemma_seq_lt_irrefl_eq(c.symbol@, c.symbol@);
            assert(collision_lt(c, b));
            if collision_lt(b, c) {
                lemma_seq_lt_trans(c.symbol@, b.symbol@, c.symbol@);
            }
        }
    } else {
        if seq_lt(b.symbol@, c.symbol@) {
        } else if b.symbol@ == c.symbol@ {
            if seq_lt(b.second_identity@, c.second_identity@) {
                lemma_seq_lt_trans(a.second_identity@, b.second_identity@, c.second_identity@);
            } else if b.second_identity@ == c.second_identity@ {
            } else {
                assert(collision_lt(c, b));
                if collision_lt(b, c) {
                    lemma_seq_lt_irrefl_eq(b.symbol@, c.symbol@);
                    lemma_seq_lt_trans(c.second_identity@, b.second_identity@, c.second_identity@);
                    lemma_seq_lt_irrefl_eq(c.second_identity@, c.second_identity@);
                }
            }
        } else {
            assert(collision_lt(c, b));
            if collision_lt(b, c) {
                lemma_seq_lt_trans(c.symbol@, b.symbol@, c.symbol@);
                lemma_seq_lt_irrefl_eq(c.symbol@, c.symbol@);
                lemma_seq_lt_irrefl_eq(b.symbol@, c.symbol@);
            }
        }
    }
}

fn collision_less(a: &EmittedCollision, b: &EmittedCollision) -> (r: bool)
    ensures
        r == collision_lt(*a, *b),
{
    let asym = chars_of(a.symbol.as_str());
    let bsym = chars_of(b.symbol.as_str());
    if vec_lt(&asym, &bsym) {
        return true;
    }
    if !vec_eq(&asym, &bsym) {
        return false;
    }
    let a2 = chars_of(a.second_identity.as_str());
    let b2 = chars_of(b.second_identity.as_str());
    vec_lt(&a2, &b2)
}

/// The emitted-set collision diagnostic.
pub open spec fn collision_message_of(c: EmittedCollision) -> Seq<char> {
    "E-BACKEND-SYMBOL-COLLISION\nas identidades '"@ + c.first_identity@ + "' e '"@
        + c.second_identity@ + "' renderizam para a mesma definição nativa '"@ + c.symbol@ + "'"@
}

/// The single emitted-set collision diagnostic message.
pub fn emitted_collision_message(collision: &EmittedCollision) -> (s: String)
    ensures
        s@ == collision_message_of(*collision),
{
    let mut out: Vec<char> = Vec::new();
    push_str_chars(&mut out, "E-BACKEND-SYMBOL-COLLISION\nas identidades '");
    push_str_chars(&mut out, collision.first_identity.as_str());
    push_str_chars(&mut out, "' e '");
    push_str_chars(&mut out, collision.second_identity.as_str());
    push_str_chars(&mut out, "' renderizam para a mesma definição nativa '");
    push_str_chars(&mut out, collision.symbol.as_str());
    push_str_chars(&mut out, "'");
    assert(out@ =~= collision_message_of(*collision));
    string_from(&out)
}

} // verus!
