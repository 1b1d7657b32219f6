use tokon_tech_log::csv::{export_rows, headers, import_into, parse_csv, template_rows, to_csv};
use tokon_tech_log::model::{Category, Entry, TechData};

fn contador() -> impl FnMut() -> String {
    let mut n = 0;
    move || {
        n += 1;
        format!("id{n}")
    }
}

#[test]
fn campos_con_comas_se_respetan() {
    let csv = "Personaje,Titulo\nMagneto,\"Combo, basico\"";
    let rows = parse_csv(csv);
    assert_eq!(rows.len(), 2);
    assert_eq!(rows[1][1], "Combo, basico");
}

#[test]
fn comillas_escapadas() {
    let rows = parse_csv("A,B\n\"dijo \"\"hola\"\"\",normal");
    assert_eq!(rows[1][0], "dijo \"hola\"");
    assert_eq!(rows[1][1], "normal");
}

#[test]
fn comillas_sueltas_en_medio_de_un_campo_son_texto() {
    let rows = parse_csv("A,B\nCon \"comillas\" dentro,x");
    assert_eq!(rows[1][0], "Con \"comillas\" dentro");
}

#[test]
fn saltos_de_linea_dentro_de_un_campo() {
    let rows = parse_csv("A,B\n\"linea1\nlinea2\",x");
    assert_eq!(rows.len(), 2);
    assert_eq!(rows[1][0], "linea1\nlinea2");
}

#[test]
fn filas_vacias_se_ignoran() {
    let rows = parse_csv("A,B\n\n\nx,y\n");
    assert_eq!(rows.len(), 2);
}

#[test]
fn crlf_no_deja_retornos_sueltos() {
    let rows = parse_csv("A,B\r\nx,y\r\n");
    assert_eq!(rows.len(), 2);
    assert_eq!(rows[1], vec!["x".to_string(), "y".to_string()]);
}

#[test]
fn ida_y_vuelta_conserva_los_campos_dificiles() {
    let tabla = vec![
        vec!["Personaje".to_string(), "Nota".to_string()],
        vec!["Blade".to_string(), "Tiene, comas y \"comillas\"".to_string()],
        vec!["Storm".to_string(), "Nota\ncon salto".to_string()],
    ];
    let vuelta = parse_csv(&to_csv(&tabla));
    assert_eq!(vuelta, tabla);
}

#[test]
fn importa_filas_validas_y_reporta_las_malas() {
    let csv = [
        "Personaje,Categoria,Titulo,Notacion,Rival,Nota,EnlaceX\n",
        "Magneto,BnB,\"Combo esquina, largo\",L L M H 2H,,\"Nota con, coma\",x.com/m1\n",
        "Doctor Doom,Matchup,Anti-air vs Storm,2H,Storm,Cuidado con el dash,\n",
        "PersonajeQueNoExiste,Nota,Titulo raro,,,,\n",
        "Blade,Nota,,,,,\n",
    ]
    .concat();
    let mut data = TechData::new();
    let result = import_into(&csv, &mut data, 1000, &mut contador());

    assert_eq!(result.added, 2);
    assert_eq!(result.errors.len(), 2);
    assert!(result.errors[0].contains("PersonajeQueNoExiste"));
    assert!(result.errors[1].contains("falta el titulo"));

    let magneto = &data.get("magneto").unwrap()[0];
    assert_eq!(magneto.title, "Combo esquina, largo");
    assert_eq!(magneto.note, "Nota con, coma");
    assert_eq!(magneto.x_link, "https://x.com/m1", "debe anadir el esquema");
    assert_eq!(magneto.category, Category::Bnb);

    let doom = &data.get("doom").unwrap()[0];
    assert_eq!(doom.category, Category::Matchup);
    assert_eq!(doom.rival_id.as_deref(), Some("storm"));
}

#[test]
fn el_rival_se_ignora_si_no_es_matchup() {
    let csv = "Personaje,Categoria,Titulo,Rival\nBlade,BnB,Combo,Storm";
    let mut data = TechData::new();
    import_into(csv, &mut data, 0, &mut contador());
    assert_eq!(data.get("blade").unwrap()[0].rival_id, None);
}

#[test]
fn cabecera_incompleta_no_importa_nada() {
    let csv = "Cosa,Otra\nx,y";
    let mut data = TechData::new();
    let result = import_into(csv, &mut data, 0, &mut contador());
    assert_eq!(result.added, 0);
    assert!(data.is_empty());
    assert!(result.errors[0].contains("Faltan columnas"));
}

#[test]
fn el_orden_de_las_columnas_da_igual() {
    let csv = "Titulo,EnlaceX,Personaje\nCombo raro,x.com/z,Hulk";
    let mut data = TechData::new();
    let result = import_into(csv, &mut data, 0, &mut contador());
    assert_eq!(result.added, 1);
    assert_eq!(data.get("hulk").unwrap()[0].title, "Combo raro");
    assert_eq!(data.get("hulk").unwrap()[0].x_link, "https://x.com/z");
}

#[test]
fn importar_no_borra_lo_que_ya_habia() {
    let mut data = TechData::new();
    import_into("Personaje,Titulo\nHulk,Primera", &mut data, 0, &mut contador());
    import_into("Personaje,Titulo\nHulk,Segunda", &mut data, 0, &mut contador());
    assert_eq!(data.get("hulk").unwrap().len(), 2);
}

#[test]
fn exportar_e_importar_cierra_el_circulo() {
    let csv_inicial = [
        "Personaje,Categoria,Titulo,Notacion,Rival,Nota,EnlaceX\n",
        "Magneto,BnB,\"Combo, raro\",236L/M,,\"Con \"\"comillas\"\"\",https://x.com/a\n",
        "Doctor Doom,Matchup,Vs Storm,2H,Storm,,\n",
    ]
    .concat();
    let mut data = TechData::new();
    import_into(&csv_inicial, &mut data, 0, &mut contador());

    let exportado = to_csv(&export_rows(&data));
    let mut data2 = TechData::new();
    let result = import_into(&exportado, &mut data2, 0, &mut contador());

    assert_eq!(result.added, 2);
    assert!(result.errors.is_empty(), "{:?}", result.errors);
    assert_eq!(data2.get("magneto").unwrap()[0].title, "Combo, raro");
    assert_eq!(data2.get("magneto").unwrap()[0].note, "Con \"comillas\"");
    assert_eq!(data2.get("magneto").unwrap()[0].notation, "236L/M");
    assert_eq!(data2.get("doom").unwrap()[0].rival_id.as_deref(), Some("storm"));
}

#[test]
fn la_plantilla_se_importa_sin_errores() {
    let csv = to_csv(&template_rows());
    let mut data = TechData::new();
    let result = import_into(&csv, &mut data, 0, &mut contador());
    assert_eq!(result.added, 1);
    assert!(result.errors.is_empty());
}

// ---------------------------------------------------------------------------
// Further cases
// ---------------------------------------------------------------------------

#[test]
fn un_archivo_vacio_se_reporta() {
    let mut data = TechData::new();
    let result = import_into("", &mut data, 0, &mut contador());
    assert_eq!(result.added, 0);
    assert_eq!(result.errors, vec!["El archivo esta vacio.".to_string()]);
    let result = import_into("\n\n ,  \n", &mut data, 0, &mut contador());
    assert_eq!(result.errors, vec!["El archivo esta vacio.".to_string()]);
    assert!(data.is_empty());
}

#[test]
fn los_errores_dicen_la_fila() {
    let csv = "Personaje,Titulo\nRyu,Algo\nHulk,\n";
    let mut data = TechData::new();
    let result = import_into(csv, &mut data, 0, &mut contador());
    assert_eq!(result.added, 0);
    assert_eq!(
        result.errors,
        vec![
            "Fila 2: no reconozco el personaje \"Ryu\".".to_string(),
            "Fila 3: falta el titulo.".to_string(),
        ]
    );
}

#[test]
fn la_importacion_usa_ids_y_hora_dados() {
    let csv = "personaje , TITULO ,categoria\nstorm,Uno,matchup\nStorm,Dos,\n";
    let mut data = TechData::new();
    let result = import_into(csv, &mut data, 42, &mut contador());
    assert_eq!(result.added, 2);
    let storm = data.get("storm").unwrap();
    assert_eq!(storm[0].id, "id1");
    assert_eq!(storm[1].id, "id2");
    assert_eq!(storm[0].created_at, 42);
    assert_eq!(storm[0].category, Category::Matchup);
    assert_eq!(storm[0].rival_id, None);
    assert_eq!(storm[1].category, Category::Nota);
}

#[test]
fn campos_entre_comillas_y_celdas_de_menos() {
    let rows = parse_csv("a,\"b\",c\r\n\"\",x\n");
    assert_eq!(rows, vec![
        vec!["a".to_string(), "b".to_string(), "c".to_string()],
        vec!["".to_string(), "x".to_string()],
    ]);
    let rows = parse_csv("\"sin cerrar,y\nmas");
    assert_eq!(rows, vec![vec!["sin cerrar,y\nmas".to_string()]]);
}

#[test]
fn escribir_csv_entrecomilla_solo_lo_necesario() {
    let rows = vec![
        vec!["a".to_string(), "b,c".to_string()],
        vec!["d\"e".to_string(), "f\rg".to_string(), "".to_string()],
    ];
    assert_eq!(to_csv(&rows), "a,\"b,c\"\r\n\"d\"\"e\",\"f\rg\",");
    assert_eq!(to_csv(&[]), "");
}

#[test]
fn cabeceras_y_plantilla() {
    assert_eq!(
        headers(),
        vec!["Personaje", "Categoria", "Titulo", "Notacion", "Rival", "Nota", "EnlaceX"]
    );
    let t = template_rows();
    assert_eq!(t.len(), 2);
    assert_eq!(t[0], headers());
    assert_eq!(t[1].len(), 7);
}

#[test]
fn exportar_sigue_el_orden_del_roster() {
    let mut data = TechData::new();
    let e = |t: &str| Entry {
        id: t.to_string(),
        title: t.to_string(),
        notation: String::new(),
        category: Category::Matchup,
        rival_id: Some("hulk".to_string()),
        note: String::new(),
        x_link: String::new(),
        created_at: 0,
    };
    data.push_entry("wolverine", e("w"));
    data.push_entry("doom", e("d"));
    data.push_entry("fantasma", e("f"));
    let rows = export_rows(&data);
    assert_eq!(rows.len(), 3);
    assert_eq!(rows[0], headers());
    assert_eq!(rows[1], vec!["Doctor Doom", "Matchup", "d", "", "Hulk", "", ""]);
    assert_eq!(rows[2][0], "Wolverine");
}

#[test]
fn la_plantilla_lleva_el_titulo_con_tilde() {
    let t = template_rows();
    assert_eq!(
        t[1],
        vec![
            "Magneto",
            "BnB",
            "Combo básico tras anti-air",
            "L, L, M, H, 2H",
            "",
            "Funciona bien en esquina",
            "https://x.com/ejemplo",
        ]
    );
}

#[test]
fn sin_nada_que_importar_no_se_piden_ids() {
    let mut data = TechData::new();
    let mut nunca = || -> String { panic!("no se debe pedir un id") };
    let r = import_into("Cosa,Otra\nx,y", &mut data, 0, &mut nunca);
    assert_eq!(r.added, 0);
    let r = import_into("Personaje,Titulo\nRyu,Algo", &mut data, 0, &mut nunca);
    assert_eq!(r.added, 0);
    assert!(data.is_empty());
}

#[test]
fn importar_lo_exportado_devuelve_cada_entrada() {
    tokon_tech_log::csv::export_names_lowercase_hold();
    let mut data = TechData::new();
    let base = Entry {
        id: "a".to_string(),
        title: "Combo, \"raro\"".to_string(),
        notation: "236L/M".to_string(),
        category: Category::Matchup,
        rival_id: Some("msmarvel".to_string()),
        note: "Linea1\nlinea2".to_string(),
        x_link: "https://x.com/a".to_string(),
        created_at: 7,
    };
    data.push_entry("spiderman", base.clone());
    let mut sin_rival = base.clone();
    sin_rival.rival_id = None;
    sin_rival.category = Category::Nota;
    data.push_entry("doom", sin_rival.clone());
    let mut data2 = TechData::new();
    let r = import_into(&to_csv(&export_rows(&data)), &mut data2, 99, &mut contador());
    assert!(r.errors.is_empty());
    assert_eq!(r.added, 2);
    let doom = &data2.get("doom").unwrap()[0];
    assert_eq!(doom.id, "id1");
    assert_eq!(doom.created_at, 99);
    assert_eq!(Entry { id: "a".into(), created_at: 7, ..doom.clone() }, sin_rival);
    let spidey = &data2.get("spiderman").unwrap()[0];
    assert_eq!(Entry { id: "a".into(), created_at: 7, ..spidey.clone() }, base);
}

#[test]
fn importar_con_ids_dados_los_usa_en_orden() {
    let csv = "Personaje,Titulo\nHulk,Uno\nRyu,Mal\nStorm,Dos\nHulk,Tres\n";
    let ids = vec!["a".to_string(), "b".to_string(), "c".to_string()];
    let mut data = TechData::new();
    let r = tokon_tech_log::csv::import_with_ids(csv, &mut data, 5, &ids);
    assert_eq!(r.added, 3);
    assert_eq!(r.errors.len(), 1);
    let hulk = data.get("hulk").unwrap();
    assert_eq!((hulk[0].id.as_str(), hulk[1].id.as_str()), ("a", "c"));
    assert_eq!(data.get("storm").unwrap()[0].id, "b");
}

#[test]
fn cada_entrada_pide_su_propio_id() {
    let mut llamadas = 0;
    let mut next = || {
        llamadas += 1;
        format!("n{llamadas}")
    };
    let mut data = TechData::new();
    let r = import_into("Personaje,Titulo\nHulk,Uno\nRyu,Mal\nHulk,Dos\n", &mut data, 0, &mut next);
    assert_eq!(r.added, 2);
    assert_eq!(llamadas, 2);
    let hulk = data.get("hulk").unwrap();
    assert_eq!((hulk[0].id.as_str(), hulk[1].id.as_str()), ("n1", "n2"));
}
