use tokon_tech_log::model::{
    character_by_id, character_by_name, character_name, characters, clasificar_enlace,
    default_team_ids_vec, default_team_name_str, es_enlace_web, format_day_month, hashtag_for,
    normalize_url, rival_label, x_search_url, Category, Entry, LinkKind, TeamConfig, TechData,
};

#[test]
fn roster_tiene_20_personajes_con_ids_unicos() {
    let roster = characters();
    assert_eq!(roster.len(), 20);
    let mut ids: Vec<&str> = roster.iter().map(|c| c.id).collect();
    ids.sort_unstable();
    ids.dedup();
    assert_eq!(ids.len(), 20, "hay ids de personaje repetidos");

    let mut monos: Vec<&str> = roster.iter().map(|c| c.mono).collect();
    monos.sort_unstable();
    monos.dedup();
    assert_eq!(monos.len(), 20, "hay monogramas repetidos");
}

#[test]
fn el_equipo_por_defecto_existe_en_el_roster() {
    for id in default_team_ids_vec() {
        assert!(character_by_id(&id).is_some(), "{id} no esta en el roster");
    }
}

#[test]
fn busca_personaje_por_nombre_sin_importar_mayusculas() {
    assert_eq!(character_by_name("doctor doom").unwrap().id, "doom");
    assert_eq!(character_by_name("  Ms. Marvel ").unwrap().id, "msmarvel");
    assert_eq!(character_by_name("SPIDER-MAN").unwrap().id, "spiderman");
    assert!(character_by_name("Ryu").is_none());
}

#[test]
fn categoria_desconocida_cae_en_nota() {
    assert_eq!(Category::from_cell("BnB"), Category::Bnb);
    assert_eq!(Category::from_cell(" matchup "), Category::Matchup);
    assert_eq!(Category::from_cell("cualquier cosa"), Category::Nota);
    assert_eq!(Category::from_cell(""), Category::Nota);
}

#[test]
fn normaliza_urls_a_medias() {
    assert_eq!(normalize_url("x.com/algo"), "https://x.com/algo");
    assert_eq!(normalize_url("https://x.com/a"), "https://x.com/a");
    assert_eq!(normalize_url("HTTP://x.com/a"), "HTTP://x.com/a");
    assert_eq!(normalize_url("   "), "");
}

#[test]
fn reconoce_enlaces_de_x() {
    for url in [
        "https://x.com/NonchalantVerde/status/2087819486644605433",
        "x.com/algo",
        "https://twitter.com/algo",
        "https://www.x.com/algo",
        "HTTPS://X.COM/algo",
        "https://mobile.twitter.com/algo",
    ] {
        assert_eq!(clasificar_enlace(url), LinkKind::X, "fallo con {url}");
    }
}

#[test]
fn reconoce_enlaces_de_youtube() {
    for url in [
        "https://www.youtube.com/watch?v=abc123",
        "youtu.be/abc123",
        "https://m.youtube.com/watch?v=x",
    ] {
        assert_eq!(clasificar_enlace(url), LinkKind::YouTube, "fallo con {url}");
    }
}

#[test]
fn otros_enlaces_validos_pasan() {
    for url in [
        "https://dustloop.com/w/Tokon",
        "start.gg/tournament/algo",
        "https://github.com/Gisleno-bit/TechTokon",
        "https://ejemplo.co.uk/a/b?c=d#e",
    ] {
        assert_eq!(clasificar_enlace(url), LinkKind::Otro, "fallo con {url}");
    }
}

#[test]
fn lo_que_no_es_un_enlace_se_detecta() {
    for basura in [
        "esto no es un enlace",
        "combo de esquina",
        "localhost",
        "algo",
        "x",
        ".com",
        "https://",
        "http://.com",
        "https://a..b.com",
        "https://sitio.1",
    ] {
        assert_eq!(
            clasificar_enlace(basura),
            LinkKind::Invalido,
            "{basura} deberia dar invalido"
        );
    }
}

#[test]
fn el_campo_vacio_no_es_un_error() {
    assert_eq!(clasificar_enlace(""), LinkKind::Vacio);
    assert_eq!(clasificar_enlace("   "), LinkKind::Vacio);
    assert!(!LinkKind::Vacio.es_problema());
}

#[test]
fn no_se_cuelan_esquemas_peligrosos() {
    for url in ["javascript:alert(1)", "file:///C:/algo", "data:text/html,x"] {
        assert_eq!(
            clasificar_enlace(url),
            LinkKind::Invalido,
            "{url} no deberia pasar"
        );
    }
}

#[test]
fn hashtags_por_personaje() {
    assert_eq!(hashtag_for("Magneto"), "#TOKON_MAGNETO");
    assert_eq!(hashtag_for("Ms. Marvel"), "#TOKON_MSMARVEL");
    assert_eq!(hashtag_for("Spider-Man"), "#TOKON_SPIDERMAN");
}

#[test]
fn el_equipo_se_limpia_de_ids_invalidos() {
    let team = TeamConfig {
        name: "  ".to_string(),
        ids: vec!["magneto".into(), "personaje-fantasma".into(), "storm".into()],
    }
    .sanitized();
    assert_eq!(team.ids, vec!["magneto".to_string(), "storm".to_string()]);
    assert_eq!(team.name, default_team_name_str());
}

#[test]
fn toggle_anade_y_quita_del_equipo() {
    let mut team = TeamConfig::default();
    assert!(team.contains("doom"));
    team.toggle("doom");
    assert!(!team.contains("doom"));
    team.toggle("storm");
    assert!(team.contains("storm"));
}

// ---------------------------------------------------------------------------
// Further cases
// ---------------------------------------------------------------------------

#[test]
fn el_nombre_del_equipo_se_conserva_si_no_esta_en_blanco() {
    let team = TeamConfig { name: " Los de siempre ".to_string(), ids: vec![] }.sanitized();
    assert_eq!(team.name, " Los de siempre ");
    assert!(team.ids.is_empty());
}

#[test]
fn el_equipo_por_defecto() {
    let team = TeamConfig::default();
    assert_eq!(team.name, "Mi equipo");
    assert_eq!(team.ids, vec!["doom", "cap", "magneto", "blade"]);
}

#[test]
fn toggle_dos_veces_deja_el_equipo_igual_si_no_estaba() {
    let mut team = TeamConfig::default();
    let antes = team.ids.clone();
    team.toggle("hulk");
    assert_eq!(team.ids.last().map(|s| s.as_str()), Some("hulk"));
    team.toggle("hulk");
    assert_eq!(team.ids, antes);
}

#[test]
fn toggle_quita_solo_la_primera_aparicion() {
    let mut team = TeamConfig {
        name: "t".to_string(),
        ids: vec!["storm".into(), "hulk".into(), "storm".into()],
    };
    team.toggle("storm");
    assert_eq!(team.ids, vec!["hulk".to_string(), "storm".to_string()]);
}

#[test]
fn nombre_por_id() {
    assert_eq!(character_name("msmarvel"), "Ms. Marvel");
    assert_eq!(character_name("ryu"), "");
    assert_eq!(character_by_id("wolverine").unwrap().mono, "WV");
    assert!(character_by_id("Wolverine").is_none());
}

#[test]
fn etiquetas_y_slugs_de_categoria() {
    assert_eq!(Category::all(), vec![Category::Bnb, Category::Matchup, Category::Nota]);
    for c in Category::all() {
        assert_eq!(Category::from_cell(c.label()), c);
        assert_eq!(Category::from_cell(c.slug()), c);
    }
    assert_eq!(Category::Bnb.label(), "BnB");
    assert_eq!(Category::Matchup.slug(), "matchup");
}

#[test]
fn mensajes_de_enlace() {
    assert_eq!(LinkKind::Vacio.mensaje(), "");
    assert_eq!(LinkKind::X.mensaje(), "Enlace a X");
    assert_eq!(LinkKind::YouTube.mensaje(), "Enlace a YouTube");
    assert_eq!(LinkKind::Otro.mensaje(), "Enlace válido");
    assert_eq!(LinkKind::Invalido.mensaje(), "Esto no parece un enlace");
    assert!(LinkKind::Invalido.es_problema());
    assert!(!LinkKind::Otro.es_problema());
}

#[test]
fn normalizar_dos_veces_no_cambia_nada() {
    for raw in ["x.com/a", "  https://y.com ", "", "HTTP://z.org", "javascript:x"] {
        let una = normalize_url(raw);
        assert_eq!(normalize_url(&una), una);
    }
    assert_eq!(normalize_url("  x.com/a  "), "https://x.com/a");
}

#[test]
fn mas_dominios_de_x_y_youtube() {
    assert_eq!(clasificar_enlace("https://fxtwitter.com/a"), LinkKind::X);
    assert_eq!(clasificar_enlace("nitter.net/a"), LinkKind::X);
    assert_eq!(clasificar_enlace("https://user@x.com:443/a"), LinkKind::X);
    assert_eq!(clasificar_enlace("https://music.youtube.com/w"), LinkKind::YouTube);
    assert_eq!(clasificar_enlace("youtube-nocookie.com/embed/x"), LinkKind::YouTube);
    assert_eq!(clasificar_enlace("https://notx.com/a"), LinkKind::Otro);
    assert_eq!(clasificar_enlace("https://x.com a"), LinkKind::Invalido);
    assert_eq!(clasificar_enlace("https://.x.com"), LinkKind::Invalido);
}

#[test]
fn solo_se_abren_enlaces_web() {
    assert!(es_enlace_web("https://x.com"));
    assert!(es_enlace_web("HTTP://x.com"));
    assert!(!es_enlace_web("file:///etc/passwd"));
    assert!(!es_enlace_web("x.com"));
}

#[test]
fn busqueda_en_x() {
    assert_eq!(
        x_search_url("#TOKON_MAGNETO"),
        "https://x.com/search?q=%23TOKON_MAGNETO&f=live"
    );
    assert_eq!(x_search_url("a#b"), "https://x.com/search?q=a%23b&f=live");
    assert_eq!(hashtag_for("123"), "#TOKON_");
}

#[test]
fn fecha_dia_mes() {
    assert_eq!(format_day_month(5, 0), "05 ene");
    assert_eq!(format_day_month(31, 11), "31 dic");
    assert_eq!(format_day_month(123, 4), "123 may");
    assert_eq!(format_day_month(7, 12), "07 ");
}

#[test]
fn etiqueta_del_rival() {
    assert_eq!(rival_label(&Some("storm".to_string())), Some("vs Storm".to_string()));
    assert_eq!(rival_label(&Some("ryu".to_string())), None);
    assert_eq!(rival_label(&None), None);
}

fn entrada(id: &str, title: &str) -> Entry {
    Entry {
        id: id.to_string(),
        title: title.to_string(),
        notation: String::new(),
        category: Category::Nota,
        rival_id: None,
        note: String::new(),
        x_link: String::new(),
        created_at: 0,
    }
}

#[test]
fn la_tech_guarda_cada_lista_por_personaje() {
    let mut data = TechData::new();
    assert!(data.is_empty());
    data.push_entry("hulk", entrada("a", "Primera"));
    data.push_entry("storm", entrada("b", "Otra"));
    data.push_entry("hulk", entrada("c", "Segunda"));
    assert_eq!(data.len(), 2);
    assert_eq!(data.keys(), vec!["hulk".to_string(), "storm".to_string()]);
    let hulk = data.get("hulk").unwrap();
    assert_eq!(hulk.len(), 2);
    assert_eq!(hulk[0].title, "Primera");
    assert_eq!(hulk[1].title, "Segunda");
    assert!(data.get("doom").is_none());

    data.insert("hulk".to_string(), vec![]);
    assert_eq!(data.get("hulk").unwrap().len(), 0);
    assert_eq!(data.len(), 2);
}

#[test]
fn los_nombres_en_mayusculas_encuentran_al_personaje() {
    tokon_tech_log::model::roster_names_lowercase_hold();
    for c in characters() {
        assert_eq!(character_by_name(&c.name.to_uppercase()).unwrap().id, c.id);
        assert_eq!(character_by_name(character_name(c.id)).unwrap().id, c.id);
    }
}

#[test]
fn normalizar_es_estable_en_ascii() {
    for raw in ["x.com/a", "  youtu.be/x ", "", "HTTP://z.org", "a b", "https://"] {
        assert!(tokon_tech_log::model::normalization_is_stable(raw));
        let n = normalize_url(raw);
        assert_eq!(normalize_url(&n), n);
        assert_eq!(clasificar_enlace(&n), clasificar_enlace(raw));
    }
}

#[test]
fn la_clasificacion_no_distingue_mayusculas() {
    for raw in ["https://x.com/a", "YOUTU.BE/abc", "https://Ejemplo.co.uk/x", "nada", "", "a b"] {
        assert!(tokon_tech_log::model::classification_ignores_ascii_case(raw));
        assert_eq!(clasificar_enlace(&raw.to_ascii_uppercase()), clasificar_enlace(raw));
    }
    assert!(!tokon_tech_log::model::classification_ignores_ascii_case("https://ñ.com"));
}
