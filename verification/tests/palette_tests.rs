use pinker_nav::palette::{
    aviso, colorir, colorir_com_fundo, colorir_se, cursor, erro, fundo_principal, italico, keyword,
    negrito, negrito_se, resumo_paleta, sublinhado, sucesso, tema_pinker, Rgb, RESET,
};

#[test]
fn rgb_from_hex_correto() {
    let cor = Rgb::from_hex(0xFF4FCB);
    assert_eq!(cor.r, 0xFF);
    assert_eq!(cor.g, 0x4F);
    assert_eq!(cor.b, 0xCB);
}

#[test]
fn to_hex_string_formato_correto() {
    assert_eq!(keyword().to_hex_string(), "#FF4FCB");
    assert_eq!(fundo_principal().to_hex_string(), "#0D0B14");
    assert_eq!(sucesso().to_hex_string(), "#72F1B8");
}

#[test]
fn fg_ansi_formato_correto() {
    let ansi = Rgb::from_hex(0xFF4FCB).fg_ansi();
    assert_eq!(ansi, "\x1b[38;2;255;79;203m");
}

#[test]
fn bg_ansi_formato_correto() {
    let ansi = Rgb::from_hex(0x2A1F3A).bg_ansi();
    assert_eq!(ansi, "\x1b[48;2;42;31;58m");
}

#[test]
fn colorir_inclui_reset() {
    let resultado = colorir(keyword(), "carinho");
    assert!(resultado.starts_with("\x1b[38;2;255;79;203m"));
    assert!(resultado.ends_with(RESET));
    assert!(resultado.contains("carinho"));
}

#[test]
fn negrito_inclui_bold_e_reset() {
    let resultado = negrito(erro(), "falha");
    assert!(resultado.starts_with("\x1b[1m"));
    assert!(resultado.ends_with(RESET));
    assert!(resultado.contains("falha"));
}

#[test]
fn tema_pinker_cores_consistentes() {
    assert_eq!(tema_pinker().keyword, keyword());
    assert_eq!(tema_pinker().cursor, cursor());
    assert_eq!(tema_pinker().keyword, tema_pinker().cursor);
}

#[test]
fn resumo_paleta_contem_todas_as_cores() {
    let resumo = resumo_paleta();
    for hex in [
        "#0D0B14", "#151120", "#F4EFFF", "#9B8FB3", "#FF4FCB", "#C792FF", "#FFB3E6", "#FFC857",
        "#7EE7FF", "#E7D7FF", "#FF5D73", "#FFB86B", "#72F1B8", "#2A1F3A",
    ] {
        assert!(resumo.contains(hex), "{hex}");
    }
}

#[test]
fn resumo_paleta_comeca_pelo_titulo() {
    let resumo = resumo_paleta();
    assert!(resumo.starts_with("Pinker — Paleta de Cores\n========================\n\nFundo principal       #0D0B14\n"));
    assert!(resumo.ends_with("Seleção               #2A1F3A"));
}

#[test]
fn from_hex_ignora_bits_acima_de_24() {
    assert_eq!(Rgb::from_hex(0xAB00_0102), Rgb { r: 0, g: 1, b: 2 });
}

#[test]
fn decimal_e_hex_nos_extremos() {
    assert_eq!(Rgb { r: 0, g: 9, b: 10 }.fg_ansi(), "\x1b[38;2;0;9;10m");
    assert_eq!(Rgb { r: 0, g: 9, b: 10 }.to_hex_string(), "#00090A");
    assert_eq!(Rgb { r: 255, g: 100, b: 99 }.bg_ansi(), "\x1b[48;2;255;100;99m");
}

#[test]
fn estilos_exatos() {
    assert_eq!(
        colorir_com_fundo(aviso(), fundo_principal(), "x"),
        "\x1b[38;2;255;184;107m\x1b[48;2;13;11;20mx\x1b[0m"
    );
    assert_eq!(italico(erro(), "i"), "\x1b[3m\x1b[38;2;255;93;115mi\x1b[0m");
    assert_eq!(sublinhado(erro(), "s"), "\x1b[4m\x1b[38;2;255;93;115ms\x1b[0m");
}

#[test]
fn versoes_condicionais_respeitam_sem_cor() {
    assert_eq!(colorir_se(keyword(), "t", true), "t");
    assert_eq!(colorir_se(keyword(), "t", false), colorir(keyword(), "t"));
    assert_eq!(negrito_se(keyword(), "t", true), "t");
    assert_eq!(negrito_se(keyword(), "t", false), negrito(keyword(), "t"));
}
