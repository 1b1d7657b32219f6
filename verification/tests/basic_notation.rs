use tokon_tech_log::basic_notation::{button_style, parse};
use tokon_tech_log::notation::legend;

fn solo_botones(raw: &str) -> Vec<String> {
    parse(raw)
        .iter()
        .flat_map(|g| g.alternatives.iter())
        .flat_map(|a| a.atoms.iter())
        .filter_map(|at| at.button.map(|b| b.code.to_string()))
        .collect()
}

#[test]
fn cadena_basica_de_botones() {
    let grupos = parse("L, L, M, H, 2H");
    assert_eq!(grupos.len(), 5);
    assert_eq!(solo_botones("L, L, M, H, 2H"), ["L", "L", "M", "H", "H"]);
}

#[test]
fn quarter_circle_se_convierte_en_flechas() {
    let grupos = parse("236M");
    assert_eq!(grupos.len(), 1);
    let atom = &grupos[0].alternatives[0].atoms[0];
    assert_eq!(atom.directions, "↓↘→");
    assert_eq!(atom.button.unwrap().code, "M");
    assert!(atom.fallback.is_none());
}

#[test]
fn botones_simultaneos_con_mas() {
    let grupos = parse("M+H");
    assert_eq!(grupos[0].alternatives.len(), 1);
    assert_eq!(grupos[0].alternatives[0].atoms.len(), 2);
    assert_eq!(solo_botones("M+H"), ["M", "H"]);
}

#[test]
fn alternativas_con_barra() {
    let grupos = parse("236L/M");
    assert_eq!(grupos.len(), 1);
    assert_eq!(grupos[0].alternatives.len(), 2);
    assert_eq!(solo_botones("236L/M"), ["L", "M"]);
}

#[test]
fn minusculas_tambien_valen() {
    assert_eq!(solo_botones("l m h"), ["L", "M", "H"]);
    assert_eq!(solo_botones("236qs"), ["QS"]);
}

#[test]
fn separadores_variados_dan_el_mismo_resultado() {
    let esperado = ["L", "M", "H"];
    assert_eq!(solo_botones("L, M, H"), esperado);
    assert_eq!(solo_botones("L > M > H"), esperado);
    assert_eq!(solo_botones("L → M → H"), esperado);
    assert_eq!(solo_botones("L-M-H"), esperado);
    assert_eq!(solo_botones("L   M    H"), esperado);
}

#[test]
fn texto_desconocido_se_conserva_tal_cual() {
    let grupos = parse("j.QQQ");
    let atom = &grupos[0].alternatives[0].atoms[0];
    assert!(atom.button.is_none());
    assert_eq!(atom.fallback.as_deref(), Some("j.QQQ"));
}

#[test]
fn direccion_sola_sin_boton() {
    let grupos = parse("236");
    let atom = &grupos[0].alternatives[0].atoms[0];
    assert_eq!(atom.directions, "↓↘→");
    assert!(atom.button.is_none());
    assert!(atom.fallback.is_none());
}

#[test]
fn notacion_vacia_no_produce_grupos() {
    assert!(parse("").is_empty());
    assert!(parse("   ").is_empty());
    assert!(parse(" , , ").is_empty());
}

#[test]
fn combo_largo_realista() {
    let raw = "2L, 5M, 236H, M+H, j.L";
    let grupos = parse(raw);
    assert_eq!(grupos.len(), 5);
    assert_eq!(solo_botones(raw), ["L", "M", "H", "M", "H"]);
}

#[test]
fn cada_boton_tiene_color_definido() {
    for (code, _) in legend() {
        assert!(button_style(code).is_some(), "falta color para {code}");
    }
}
