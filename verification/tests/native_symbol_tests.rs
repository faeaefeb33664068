use pinker_nav::native_symbol::{
    classify_function, decode_injective_local_label, emitted_collision_message, function_binding,
    function_symbol, injective_local_label, is_compiler_generated, native_binding,
    pinker_owned_namespaces, reserved_namespace, reserved_namespace_message, EmittedDefinitions,
    NamespaceOwner, NativeBinding, NativeDefinition, NativeSurface, ReservedScope, ReservedShape,
    ENTRYPOINT_NATIVE_SYMBOL, ENTRYPOINT_SOURCE_IDENTITY,
};

#[test]
fn entrypoint_e_a_unica_identidade_que_produz_main() {
    assert_eq!(
        function_symbol(NativeSurface::Assemblable, ENTRYPOINT_SOURCE_IDENTITY),
        ENTRYPOINT_NATIVE_SYMBOL
    );
    assert_eq!(function_symbol(NativeSurface::Assemblable, "somar"), "somar");
    assert_eq!(
        function_symbol(NativeSurface::TextualAbi, ENTRYPOINT_SOURCE_IDENTITY),
        ENTRYPOINT_SOURCE_IDENTITY
    );
}

#[test]
fn ligacao_por_classe() {
    assert_eq!(native_binding(NativeDefinition::Entrypoint), NativeBinding::Global);
    for definition in [
        NativeDefinition::UserFunction,
        NativeDefinition::GeneratedFunction,
        NativeDefinition::UserGlobal,
        NativeDefinition::BackendHelper,
    ] {
        assert_eq!(native_binding(definition), NativeBinding::Local);
    }
    assert_eq!(
        NativeBinding::Local.directive("malloc"),
        ".local malloc",
        "STB_LOCAL é emitido como .local; .hidden não resolve captura em link estático"
    );
    assert_eq!(NativeBinding::Global.directive("main"), ".globl main");
}

#[test]
fn nomes_do_host_continuam_legais_na_pinker() {
    for host in ["malloc", "memcpy", "write", "getenv", "free", "environ"] {
        assert!(reserved_namespace(host, ReservedScope::AnyIdentifier).is_none());
        assert!(reserved_namespace(host, ReservedScope::SymbolDefinition).is_none());
        assert_eq!(function_binding(host), NativeBinding::Local);
    }
}

#[test]
fn namespaces_reservados_valem_na_fronteira_declarada() {
    assert!(reserved_namespace("__impl_x", ReservedScope::AnyIdentifier).is_some());
    assert!(reserved_namespace("main", ReservedScope::AnyIdentifier).is_none());
    assert!(reserved_namespace("main", ReservedScope::SymbolDefinition).is_some());
    assert!(reserved_namespace("_start", ReservedScope::SymbolDefinition).is_some());
    assert!(reserved_namespace("pinker_rt_iniciar", ReservedScope::SymbolDefinition).is_some());
    assert!(
        reserved_namespace(ENTRYPOINT_SOURCE_IDENTITY, ReservedScope::SymbolDefinition).is_none()
    );
}

#[test]
fn a_reserva_e_da_forma_possuida_e_nao_do_superprefixo() {
    for livre in ["__usuario", "__coisa", "__abc123", "__", "___", "__x"] {
        assert!(
            reserved_namespace(livre, ReservedScope::AnyIdentifier).is_none(),
            "'{livre}' não pertence a nenhuma família realmente gerada"
        );
        assert!(!is_compiler_generated(livre));
        assert_eq!(classify_function(livre), NativeDefinition::UserFunction);
        assert_eq!(function_binding(livre), NativeBinding::Local);
    }
}

#[test]
fn entrada_exata_nunca_vira_prefixo() {
    for exato in ["__env", "__ternario"] {
        assert!(reserved_namespace(exato, ReservedScope::AnyIdentifier).is_some());
    }
    for extensao in ["__envio", "__env_", "__ternarios", "__ternario_x"] {
        assert!(
            reserved_namespace(extensao, ReservedScope::AnyIdentifier).is_none(),
            "'{extensao}' estende um nome exato e não é forma possuída"
        );
    }
}

#[test]
fn classificacao_de_gerada_consome_a_autoridade_canonica() {
    for entry in pinker_owned_namespaces() {
        if entry.owner != NamespaceOwner::CompilerGenerated {
            continue;
        }
        let representante = match entry.shape {
            ReservedShape::Prefix(prefix) => format!("{prefix}amostra"),
            ReservedShape::Exact(exact) => exact.to_string(),
        };
        assert!(is_compiler_generated(&representante), "{representante}");
        assert_eq!(
            classify_function(&representante),
            NativeDefinition::GeneratedFunction,
            "{representante}"
        );
        assert_eq!(entry.scope, ReservedScope::AnyIdentifier);
    }
}

#[test]
fn rotulo_injetivo_separa_o_caso_historico_da_f04() {
    let a = injective_local_label(&["f", "loop_join_1"]);
    let b = injective_local_label(&["f_loop", "join_1"]);
    assert_ne!(a, b);
    assert_eq!(
        decode_injective_local_label(&a).unwrap(),
        vec!["f".to_string(), "loop_join_1".to_string()]
    );
    assert_eq!(
        decode_injective_local_label(&b).unwrap(),
        vec!["f_loop".to_string(), "join_1".to_string()]
    );
}

#[test]
fn conjunto_emitido_separa_muitos_para_um_de_colisao() {
    let mut set = EmittedDefinitions::new();
    set.define("pinker_falar_fim", "intrínseca falar");
    set.define("pinker_falar_fim", "intrínseca falar");
    assert!(set.first_collision().is_none());

    set.define("main", "principal");
    set.define("main", "carinho main");
    let collision = set.first_collision().expect("colisão registrada");
    assert_eq!(collision.symbol, "main");
}

#[test]
fn rotulo_exato_e_comprimento_em_bytes() {
    assert_eq!(injective_local_label(&["f", "loop_join_1"]), ".Lp1_f11_loop_join_1");
    assert_eq!(injective_local_label(&[]), ".Lp");
    // `ç` ocupa dois bytes em UTF-8.
    assert_eq!(injective_local_label(&["laço"]), ".Lp5_laço");
    assert_eq!(decode_injective_local_label(".Lp5_laço").unwrap(), vec!["laço".to_string()]);
    assert_eq!(decode_injective_local_label(".Lp").unwrap(), Vec::<String>::new());
    assert_eq!(decode_injective_local_label(".Lp0_").unwrap(), vec![String::new()]);
}

#[test]
fn rotulo_malformado_nao_decodifica() {
    for ruim in ["", ".L", "Lp1_f", ".Lpx", ".Lp1f", ".Lp2_f", ".Lp1_", ".Lp4_laço", ".Lp99999999999999999999999_a"] {
        assert!(decode_injective_local_label(ruim).is_none(), "{ruim}");
    }
}

#[test]
fn colisao_menor_por_simbolo_e_segunda_identidade() {
    let mut set = EmittedDefinitions::new();
    set.define("zeta", "a");
    set.define("alfa", "a");
    set.define("zeta", "b");
    set.define("alfa", "c");
    set.define("alfa", "b");
    assert_eq!(set.len(), 2);
    assert!(!set.is_empty());
    let first = set.first_collision().unwrap();
    assert_eq!(first.symbol, "alfa");
    assert_eq!(first.first_identity, "a");
    assert_eq!(first.second_identity, "b");
    assert_eq!(
        emitted_collision_message(first),
        "E-BACKEND-SYMBOL-COLLISION\nas identidades 'a' e 'b' renderizam para a mesma definição nativa 'alfa'"
    );
}

#[test]
fn mensagem_de_namespace_reservado() {
    let ns = reserved_namespace("__impl_x", ReservedScope::AnyIdentifier).unwrap();
    assert_eq!(
        reserved_namespace_message("__impl_x", ns),
        "E-SEMANTIC-RESERVED-NAMESPACE\nidentificador '__impl_x' usa o prefixo '__impl_', reservado à Pinker: o parser materializa cada método de `trato` implementado sob este prefixo"
    );
    let main = reserved_namespace("main", ReservedScope::SymbolDefinition).unwrap();
    assert_eq!(main.shape.rendered(), "é o símbolo 'main', reservado à Pinker");
    assert!(EmittedDefinitions::new().is_empty());
}
