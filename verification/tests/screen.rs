use tokon_tech_log::csv::ImportResult;
use tokon_tech_log::model::{
    comprobar_enlace_web, entry_from_draft, Category, Entry, EntryDraft, TeamConfig, TechData,
};
use tokon_tech_log::notation::button_style;
use tokon_tech_log::screen::{
    clic_en_enlace, mostrar_enlace_tras_pedirlo, ClicEnlace,
    badge_style, draft_from_form, empty_message, import_summary, initial_selection, legend_color,
    link_mark, link_title, rivals_for, roster_rest, selected_character, tag_class, team_from_editor,
    team_hint, team_members, visible_entries, Accion, Pantalla,
};

fn entry(id: &str, title: &str, category: Category, created_at: u64) -> Entry {
    Entry {
        id: id.to_string(),
        title: title.to_string(),
        notation: String::new(),
        category,
        rival_id: None,
        note: String::new(),
        x_link: String::new(),
        created_at,
    }
}

fn ids(v: &[Entry]) -> Vec<&str> {
    v.iter().map(|e| e.id.as_str()).collect()
}

#[test]
fn la_lista_va_de_lo_mas_reciente_a_lo_mas_antiguo() {
    let entries = vec![
        entry("a", "Uno", Category::Bnb, 10),
        entry("b", "Dos", Category::Nota, 30),
        entry("c", "Tres", Category::Bnb, 20),
        entry("d", "Cuatro", Category::Bnb, 30),
    ];
    let v = visible_entries(&entries, None, "");
    assert_eq!(ids(&v), vec!["b", "d", "c", "a"]);
    for w in v.windows(2) {
        assert!(w[0].created_at >= w[1].created_at);
    }
}

#[test]
fn la_lista_filtra_por_categoria_y_busqueda() {
    let mut con_nota = entry("e", "Otro", Category::Matchup, 5);
    con_nota.note = "Cuidado con el DASH".to_string();
    let mut con_notacion = entry("f", "Nada", Category::Bnb, 6);
    con_notacion.notation = "236L".to_string();
    let entries = vec![
        entry("a", "Combo Esquina", Category::Bnb, 1),
        entry("b", "anti-air", Category::Matchup, 2),
        con_nota,
        con_notacion,
    ];
    assert_eq!(ids(&visible_entries(&entries, Some(Category::Bnb), "")), vec!["f", "a"]);
    assert_eq!(ids(&visible_entries(&entries, None, "  ESQUINA ")), vec!["a"]);
    assert_eq!(ids(&visible_entries(&entries, None, "dash")), vec!["e"]);
    assert_eq!(ids(&visible_entries(&entries, None, "236l")), vec!["f"]);
    assert_eq!(ids(&visible_entries(&entries, Some(Category::Bnb), "air")), Vec::<&str>::new());
    assert!(visible_entries(&Vec::new(), None, "x").is_empty());
}

#[test]
fn la_barra_lateral_separa_equipo_y_resto() {
    let team = TeamConfig {
        name: "t".to_string(),
        ids: vec!["storm".into(), "fantasma".into(), "doom".into()],
    };
    let miembros: Vec<&str> = team_members(&team).iter().map(|c| c.id).collect();
    assert_eq!(miembros, vec!["storm", "doom"]);
    let resto = roster_rest(&team);
    assert_eq!(resto.len(), 18);
    assert_eq!(resto[0].id, "cap");
    assert!(resto.iter().all(|c| c.id != "storm" && c.id != "doom"));
}

#[test]
fn los_rivales_son_el_resto_del_roster() {
    let rivales = rivals_for("magneto");
    assert_eq!(rivales.len(), 19);
    assert!(rivales.iter().all(|c| c.id != "magneto"));
    assert_eq!(rivals_for("nadie").len(), 20);
}

#[test]
fn se_arranca_en_el_primero_del_equipo() {
    assert_eq!(initial_selection(&TeamConfig::default()), "doom");
    let vacio = TeamConfig { name: "t".to_string(), ids: vec![] };
    assert_eq!(initial_selection(&vacio), "doom");
    let otro = TeamConfig { name: "t".to_string(), ids: vec!["hulk".into()] };
    assert_eq!(initial_selection(&otro), "hulk");
    assert_eq!(selected_character("hulk").name, "Hulk");
    assert_eq!(selected_character("nadie").id, "doom");
}

#[test]
fn el_editor_de_equipo() {
    let t = team_from_editor("  Latverian Fliers ", vec!["doom".into()]);
    assert_eq!(t.name, "Latverian Fliers");
    assert_eq!(t.ids, vec!["doom".to_string()]);
    assert_eq!(team_from_editor("   ", vec![]).name, "Mi equipo");
    assert_eq!(team_hint(1), "Tōkon usa equipos de 4 · llevas 1 seleccionado");
    assert_eq!(team_hint(4), "Tōkon usa equipos de 4 · llevas 4 seleccionados");
    assert_eq!(team_hint(0), "Tōkon usa equipos de 4 · llevas 0 seleccionados");
}

#[test]
fn el_formulario_entrega_un_borrador_limpio() {
    assert!(draft_from_form("   ", "L", Category::Bnb, "", "", "").is_none());
    let d = draft_from_form(" Combo ", " L L ", Category::Matchup, "storm", " nota ", "x.com/a")
        .unwrap();
    assert_eq!(
        d,
        EntryDraft {
            title: "Combo".to_string(),
            notation: "L L".to_string(),
            category: Category::Matchup,
            rival_id: Some("storm".to_string()),
            note: "nota".to_string(),
            x_link: "https://x.com/a".to_string(),
        }
    );
    let d = draft_from_form("Combo", "", Category::Bnb, "storm", "", "").unwrap();
    assert_eq!(d.rival_id, None);
    assert_eq!(d.x_link, "");
    let d = draft_from_form("Combo", "", Category::Matchup, "", "", "").unwrap();
    assert_eq!(d.rival_id, None);
}

#[test]
fn anadir_editar_y_borrar_tech() {
    let mut data = TechData::new();
    let d = draft_from_form("Primera", "", Category::Bnb, "", "", "").unwrap();
    data.push_entry("hulk", entry_from_draft(d, "id1".to_string(), 100));
    let d = draft_from_form("Segunda", "", Category::Nota, "", "", "").unwrap();
    data.push_entry("hulk", entry_from_draft(d, "id2".to_string(), 200));
    assert_eq!(data.count("hulk"), 2);
    assert_eq!(data.count("storm"), 0);

    let d = draft_from_form("Cambiada", "2H", Category::Matchup, "storm", "", "").unwrap();
    data.update_entry("hulk", "id1", d);
    let hulk = data.get("hulk").unwrap();
    assert_eq!(hulk[0].id, "id1");
    assert_eq!(hulk[0].title, "Cambiada");
    assert_eq!(hulk[0].rival_id.as_deref(), Some("storm"));
    assert_eq!(hulk[0].created_at, 100);
    assert_eq!(hulk[1].title, "Segunda");

    let d = draft_from_form("Nada", "", Category::Bnb, "", "", "").unwrap();
    data.update_entry("hulk", "no-existe", d.clone());
    data.update_entry("storm", "id1", d);
    assert_eq!(data.get("hulk").unwrap()[0].title, "Cambiada");
    assert!(data.get("storm").is_none());

    data.remove_entry("hulk", "id1");
    assert_eq!(ids(data.get("hulk").unwrap()), vec!["id2"]);
    data.remove_entry("storm", "id2");
    assert_eq!(data.count("hulk"), 1);
    data.remove_entry("hulk", "id2");
    assert_eq!(data.count("hulk"), 0);
    assert_eq!(data.len(), 1);
}

#[test]
fn mensajes_de_la_pantalla() {
    assert_eq!(link_title("https://x.com/a"), "Abrir en X");
    assert_eq!(link_title("youtu.be/x"), "Abrir en YouTube");
    assert_eq!(link_title("dustloop.com"), "Abrir el enlace");
    assert_eq!(link_title("nada"), "Abrir el enlace");
    assert_eq!(tag_class(Category::Matchup), "tag tag-matchup");
    assert_eq!(empty_message("Storm", false), "Aún no hay tech para Storm. Añade la primera.");
    assert_eq!(empty_message("Storm", true), "No hay resultados para este filtro.");
    assert_eq!(link_mark('<'), "‹");
    assert_eq!(link_mark('>'), "›");
    assert_eq!(legend_color("QS"), "#B5E84C");
    assert_eq!(legend_color("Z"), "#888");
    let l = button_style("L").unwrap();
    assert_eq!(badge_style(&l), "background: #F2C94C; color: #241D00");
}

#[test]
fn resumen_de_la_importacion() {
    let r = ImportResult { added: 1, errors: vec![] };
    assert_eq!(import_summary(&r), "1 tech importada. ");
    let r = ImportResult {
        added: 0,
        errors: vec!["a".into(), "b".into(), "c".into(), "d".into()],
    };
    assert_eq!(import_summary(&r), "4 filas con problemas: a b c");
    let r = ImportResult { added: 3, errors: vec!["x".into()] };
    assert_eq!(import_summary(&r), "3 tech importadas. 1 fila con problemas: x");
    assert_eq!(import_summary(&ImportResult::default()), "");
}

#[test]
fn solo_se_lanzan_enlaces_web() {
    assert_eq!(comprobar_enlace_web("https://x.com"), Ok(()));
    assert_eq!(
        comprobar_enlace_web("file:///etc"),
        Err("Solo se abren enlaces http o https".to_string())
    );
}

#[test]
fn la_pantalla_responde_a_las_acciones() {
    let p = Pantalla::inicial(&TeamConfig::default());
    assert_eq!(p.selected, "doom");
    assert!(!p.form_open);
    let p = p.aplicar(Accion::NuevaTech);
    assert!(p.form_open);
    let p = p.aplicar(Accion::Editar("id1".to_string()));
    assert!(!p.form_open);
    assert!(p.editando("id1"));
    assert!(!p.editando("id2"));
    let p = p.aplicar(Accion::NuevaTech);
    assert!(p.form_open);
    assert_eq!(p.editing_id, None);
    let p = p.aplicar(Accion::Filtrar(Some(Category::Bnb)));
    let p = p.aplicar(Accion::Buscar("combo".to_string()));
    assert_eq!(p.filtro, Some(Category::Bnb));
    assert_eq!(p.busqueda, "combo");
    let p = p.aplicar(Accion::AbrirEditorEquipo);
    assert!(p.team_editor_open && !p.form_open);
    let p = p.aplicar(Accion::CerrarEditorEquipo);
    assert!(!p.team_editor_open);
    let p = p.aplicar(Accion::Seleccionar("storm".to_string()));
    assert_eq!(p.selected, "storm");
    assert_eq!(p.filtro, None);
    assert_eq!(p.busqueda, "");
    let p = p.aplicar(Accion::NuevaTech).aplicar(Accion::CerrarFormulario);
    assert!(!p.form_open);
    let p = p.aplicar(Accion::Editar("x".into())).aplicar(Accion::TerminarEdicion);
    assert_eq!(p.editing_id, None);
}

// Laws, on concrete values.

#[test]
fn alternar_dos_veces_deja_el_equipo_como_estaba() {
    let mut team = TeamConfig { name: "t".into(), ids: vec!["doom".into(), "cap".into()] };
    team.toggle("storm");
    assert!(team.contains("storm"));
    team.toggle("storm");
    assert_eq!(team.ids, vec!["doom".to_string(), "cap".to_string()]);
}

#[test]
fn limpiar_dos_veces_es_limpiar_una() {
    let t = TeamConfig { name: " ".into(), ids: vec!["x".into(), "hulk".into()] }.sanitized();
    let t2 = t.clone().sanitized();
    assert_eq!(t, t2);
    assert_eq!(t.name, "Mi equipo");
}

#[test]
fn importar_solo_anade() {
    let mut data = TechData::new();
    data.push_entry("hulk", entry("h0", "Antes", Category::Nota, 1));
    let r = tokon_tech_log::csv::import_into(
        "Personaje,Titulo\nHulk,Nueva\nStorm,Otra\nRyu,Mal",
        &mut data,
        5,
        &mut || "n".to_string(),
    );
    assert_eq!(r.added, 2);
    assert_eq!(data.count("hulk") + data.count("storm"), 1 + r.added);
    assert_eq!(data.get("hulk").unwrap()[0].id, "h0");
}

#[test]
fn el_clic_en_un_enlace() {
    assert_eq!(clic_en_enlace(false), ClicEnlace::Navegar);
    assert_eq!(clic_en_enlace(true), ClicEnlace::PedirAlEscritorio);
    assert!(mostrar_enlace_tras_pedirlo(false));
    assert!(!mostrar_enlace_tras_pedirlo(true));
}
