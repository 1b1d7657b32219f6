use tokon_tech_log::notation::{button_style, legend, parse, Piece};

fn piezas(raw: &str) -> Vec<Piece> {
    parse(raw)
        .iter()
        .flat_map(|g| g.alternatives.iter())
        .flat_map(|a| a.atoms.iter())
        .flat_map(|at| at.pieces.iter())
        .cloned()
        .collect()
}

fn botones(raw: &str) -> Vec<String> {
    piezas(raw)
        .iter()
        .filter_map(|p| match p {
            Piece::Button(b) => Some(b.code.to_string()),
            _ => None,
        })
        .collect()
}

fn etiquetas(raw: &str) -> Vec<String> {
    piezas(raw)
        .iter()
        .filter_map(|p| match p {
            Piece::Label(t) => Some(t.clone()),
            _ => None,
        })
        .collect()
}

fn textos(raw: &str) -> Vec<String> {
    piezas(raw)
        .iter()
        .filter_map(|p| match p {
            Piece::Text(t) => Some(t.clone()),
            _ => None,
        })
        .collect()
}

#[test]
fn cadena_basica() {
    assert_eq!(botones("L, L, M, H, 2H"), ["L", "L", "M", "H", "H"]);
    assert_eq!(parse("L, L, M, H, 2H").len(), 5);
}

#[test]
fn quarter_circle() {
    let p = piezas("236M");
    assert_eq!(p[0], Piece::Directions("↓↘→".into()));
    assert_eq!(botones("236M"), ["M"]);
}

#[test]
fn simultaneos_y_alternativas() {
    assert_eq!(botones("M+H"), ["M", "H"]);
    assert_eq!(botones("236L/M"), ["L", "M"]);
    assert_eq!(parse("236L/M")[0].alternatives.len(), 2);
}

#[test]
fn minusculas_valen() {
    assert_eq!(botones("l m h"), ["L", "M", "H"]);
    assert_eq!(botones("236qs"), ["QS"]);
}

#[test]
fn separadores_variados() {
    for raw in ["L, M, H", "L > M > H", "L → M → H", "L-M-H", "L   M    H"] {
        assert_eq!(botones(raw), ["L", "M", "H"], "fallo con {raw}");
    }
}

#[test]
fn notacion_vacia() {
    assert!(parse("").is_empty());
    assert!(parse("   ").is_empty());
    assert!(parse(" , , ").is_empty());
}

#[test]
fn salto_con_y_sin_punto() {
    for raw in ["JM", "jM", "j.M", "J.M", "jm"] {
        assert_eq!(botones(raw), ["M"], "fallo con {raw}");
        assert_eq!(etiquetas(raw).len(), 1, "{raw} deberia llevar etiqueta de salto");
        assert!(textos(raw).is_empty(), "{raw} no deberia dejar texto suelto");
    }
}

#[test]
fn stance_de_goblin() {
    let p = piezas("g.236LLL");
    assert_eq!(p[0], Piece::Label("g.".into()));
    assert_eq!(p[1], Piece::Directions("↓↘→".into()));
    assert_eq!(botones("g.236LLL"), ["L", "L", "L"]);
}

#[test]
fn una_palabra_que_empieza_por_prefijo_no_lo_es() {
    for palabra in ["jump", "juggle", "land", "held", "grab", "Freedom", "Charge"] {
        assert_eq!(
            textos(palabra),
            vec![palabra.to_string()],
            "{palabra} deberia quedarse como texto"
        );
        assert!(botones(palabra).is_empty(), "{palabra} no lleva botones");
    }
}

#[test]
fn palabras_clave_sueltas() {
    for kw in ["dl", "IAD", "jc"] {
        assert_eq!(etiquetas(kw), vec![kw.to_string()]);
    }
}

#[test]
fn direccion_mantenida_entre_corchetes() {
    let p = piezas("j.[6]HH");
    assert_eq!(p[0], Piece::Label("j.".into()));
    assert_eq!(p[1], Piece::Hold("→".into()));
    assert_eq!(botones("j.[6]HH"), ["H", "H"]);
}

#[test]
fn dash_y_direcciones_repetidas() {
    assert_eq!(piezas("66")[0], Piece::Directions("→→".into()));
    assert_eq!(piezas("g.22L")[1], Piece::Directions("↓↓".into()));
}

#[test]
fn jump_cancel_con_direccion() {
    let p = piezas("jc9");
    assert_eq!(p[0], Piece::Label("jc".into()));
    assert_eq!(p[1], Piece::Directions("↗".into()));
}

#[test]
fn el_cero_no_es_direccion() {
    assert_eq!(textos("10L"), vec!["10".to_string()]);
}

#[test]
fn botones_repetidos() {
    assert_eq!(botones("5AA"), ["A", "A"]);
    assert_eq!(botones("j.MMM"), ["M", "M", "M"]);
    assert_eq!(botones("g.236LL"), ["L", "L"]);
}

#[test]
fn se_distingue_el_conector() {
    let g = parse("j.U < g.236LL > g.623A");
    assert_eq!(g[0].link, None, "el primero no lleva conector");
    assert_eq!(g[1].link, Some('<'));
    assert_eq!(g[2].link, Some('>'));
}

#[test]
fn conector_pegado_sin_espacios() {
    let g = parse("5M>2M>5H");
    assert_eq!(g.len(), 3);
    assert_eq!(g[1].link, Some('>'));
}

#[test]
fn las_palabras_sueltas_no_llevan_conector() {
    let g = parse("dl j.U");
    assert_eq!(g.len(), 2);
    assert!(g[0].link.is_none());
    assert!(g[1].link.is_none(), "un espacio no es un conector");
}

const COMBOS: &[&str] = &[
    "j.5M > 5M > 2M > 5H > jc9 j.[6]HH > j.U > g.236LLL > g.9U > j.M > j.[6]HH > dl j.U < g.236LL > g.623A > g.623A",
    "5A > 5M > 2M > 5H > jc9 j.[6]HH > j.U > g.236LLL > g.9U > j.M > j.[6]HH > dl j.U < g.236LL > g.623A > g.623A",
    "5M > 2M > 5H > jc9 j.[6]HH > j.U > g.236LL > g.22L > IAD > j.6H > j9 j.[6]HH > dl j.U < g.236LL > g.623A < g.623A",
    "2M > 5H > jc9 j.[6]HH > j.U > g.236LL > g.22L > IAD > j.6H > 5H > jc9 j.[6]HH > dl j.U < g.236LL > g.623A < g.623A",
    "5M > 2H > 214M > 66 > 5M > 5H > jc9 j.[6]HH > dl j.U < g.[6]M < g.6U > j.MM > j.U < g.236LL > g.623A < g.623A",
    "j.M > 2H > 214M > 66 > 5M > 5H > jc9 j.[6]HH > dl j.U < g.236LLL < g.6U > j.MM > j.U < g.236LL > g.623A < g.623A",
    "5AA > 2H > 214M > 66 > 5M > jc9 j.[6]HH > dl j.U < g.[6]M < g.6U > j.MM > j.U < g.236LL > g.623A < g.623A",
    "2H > j.MMM > j.H > j.M > jc9 j.MM > 5H > jc9 > j.[6]HH > j.U > g.236LL > g.623L > g.623L",
    "g.5M > g.6U > j.5MM > j.U > g.236LL > g.22L > IAD > j.6H > 5H > jc9 j.M > j.[6]HH > dl j.U > g.236LL > g.623L > g.623L",
];

#[test]
fn los_combos_reales_no_dejan_texto_sin_reconocer() {
    for (n, combo) in COMBOS.iter().enumerate() {
        let sueltos = textos(combo);
        assert!(
            sueltos.is_empty(),
            "combo {}: ha quedado texto sin interpretar: {:?}",
            n + 1,
            sueltos
        );
    }
}

#[test]
fn los_combos_reales_tienen_botones_en_casi_todos_los_grupos() {
    for (n, combo) in COMBOS.iter().enumerate() {
        let grupos = parse(combo);
        assert!(grupos.len() > 10, "combo {}: se ha troceado mal", n + 1);
        for g in &grupos {
            let piezas: Vec<&Piece> = g
                .alternatives
                .iter()
                .flat_map(|a| a.atoms.iter())
                .flat_map(|at| at.pieces.iter())
                .collect();
            assert!(!piezas.is_empty(), "combo {}: grupo vacio", n + 1);
            assert!(
                !piezas.iter().any(|p| matches!(p, Piece::Text(_))),
                "combo {}: grupo con texto sin reconocer: {:?}",
                n + 1,
                piezas
            );
        }
    }
}

#[test]
fn combo_uno_pieza_a_pieza() {
    let g = parse(COMBOS[0]);
    assert_eq!(
        g[0].alternatives[0].atoms[0].pieces,
        vec![
            Piece::Label("j.".into()),
            Piece::Directions("•".into()),
            Piece::Button(button_style("M").unwrap()),
        ]
    );
    let jc = g.iter().find(|x| {
        x.alternatives[0].atoms[0].pieces.first() == Some(&Piece::Label("jc".into()))
    });
    assert!(jc.is_some(), "no se ha encontrado el jc9");
    assert_eq!(botones(COMBOS[0]).len(), 19);
}

#[test]
fn simbolos_sin_cerrar_no_cuelgan_el_parser() {
    for raw in [
        "j.[6HH",
        "(JC j.M",
        "5H > [ > 2M",
        "5H > ( > 2M",
        "j.[",
        "(",
        "[",
        "))",
        "]]",
        "[[6]]",
        "((JC))",
    ] {
        let grupos = parse(raw);
        assert!(!grupos.is_empty(), "{raw} no deberia quedarse vacio");
    }
}

#[test]
fn nada_se_pierde_aunque_falte_el_cierre() {
    let p = piezas("j.[6HH");
    assert!(p.iter().any(|x| matches!(x, Piece::Label(t) if t == "j.")));
    assert!(p.iter().any(|x| matches!(x, Piece::Text(t) if t == "[")));
    assert_eq!(botones("j.[6HH"), ["H", "H"]);
}

#[test]
fn una_barra_doble_no_deja_etiquetas_vacias() {
    let p = piezas("L//M");
    assert!(
        !p.iter().any(|x| matches!(x, Piece::Text(t) if t.is_empty())),
        "no deberia haber texto vacio: {p:?}"
    );
}

#[test]
fn cada_boton_de_la_leyenda_tiene_color() {
    for (code, _) in legend() {
        assert!(button_style(code).is_some(), "falta color para {code}");
    }
}
