use emmylua_doc_html::index::{
    build_link_map, documented_globals, documented_modules, documented_types, escape, global_in_main_workspace,
    link_from_page, link_type, page_path, type_in_main_workspace, DbIndex, DeclKind, GlobalDecl, GlobalType,
    ModuleInfo, TypeDecl,
};
use emmylua_doc_html::search::{find_href, search_entries, search_index_js, SearchEntry};
use emmylua_doc_html::site::{build_site, finish_doc, kind_dirs, Docs, Site};
use emmylua_doc_html::types::{DocMember, HtmlDoc, NavItem, NavModel};

fn decl(name: &str, kind: DeclKind, locations: &[u32]) -> TypeDecl {
    TypeDecl { full_name: name.to_string(), kind, locations: locations.to_vec() }
}

fn global(file_id: u32, global_type: Option<GlobalType>) -> GlobalDecl {
    GlobalDecl { file_id, global_type }
}

/// Files 1 and 2 are in the main workspace, file 3 is in a library, file 4 has no
/// module.
fn db() -> DbIndex {
    DbIndex {
        modules: vec![
            ModuleInfo { file_id: 1, main: true },
            ModuleInfo { file_id: 3, main: false },
            ModuleInfo { file_id: 2, main: true },
        ],
        types: vec![
            decl("game.Player", DeclKind::Class, &[3, 1]),
            decl("lib.Hidden", DeclKind::Class, &[3]),
            decl("Color", DeclKind::Enum, &[2]),
            decl("Id<T>", DeclKind::Alias, &[1]),
            decl("Lost", DeclKind::Class, &[]),
        ],
        globals: vec![
            global(1, Some(GlobalType::Other)),
            global(1, Some(GlobalType::Ref)),
            global(1, Some(GlobalType::Def)),
            global(1, None),
            global(3, Some(GlobalType::Other)),
            global(4, Some(GlobalType::Other)),
        ],
    }
}

fn doc(kind: &str, name: &str) -> Option<HtmlDoc> {
    Some(HtmlDoc {
        title: format!("{} {}", kind, name),
        name: name.to_string(),
        kind: kind.to_string(),
        ..Default::default()
    })
}

fn member(name: &str, short_name: &str) -> DocMember {
    DocMember { name: name.to_string(), short_name: short_name.to_string() }
}

fn docs() -> Docs {
    let mut player = doc("class", "game.Player");
    if let Some(page) = player.as_mut() {
        page.fields.push(member("game.Player.hp", "hp"));
        page.methods.push(member("game.Player:hit", "hit"));
        page.methods.push(member("game.Player:heal", "heal"));
    }
    let mut module = doc("module", "main");
    if let Some(page) = module.as_mut() {
        page.methods.push(member("main.run", "run"));
    }
    Docs {
        types: vec![player, doc("class", "lib.Hidden"), doc("enum", "Color"), doc("alias", "Id<T>"), doc("class", "Lost")],
        modules: vec![module, doc("module", "lib"), None],
        globals: vec![
            doc("global", "print_all"),
            doc("global", "b"),
            doc("global", "c"),
            doc("global", "d"),
            doc("global", "e"),
            doc("global", "f"),
        ],
    }
}

fn site() -> Site {
    build_site(&db(), docs(), Some("My site".to_string()))
}

fn items(nav: &NavModel) -> Vec<NavItem> {
    nav.types.iter().chain(nav.modules.iter()).chain(nav.globals.iter()).cloned().collect()
}

#[test]
fn types_of_the_main_workspace_are_shown() {
    let db = db();
    assert!(type_in_main_workspace(&db, &[3, 1]));
    assert!(!type_in_main_workspace(&db, &[3]));
    assert!(!type_in_main_workspace(&db, &[4]));
    assert!(!type_in_main_workspace(&db, &[]));
    assert_eq!(documented_types(&db), vec![true, false, true, true, false]);
}

#[test]
fn modules_of_the_main_workspace_are_shown() {
    assert_eq!(documented_modules(&db()), vec![true, false, true]);
}

#[test]
fn globals_of_a_declared_type_are_not_shown() {
    let db = db();
    assert!(global_in_main_workspace(&db, &db.globals[0]));
    assert_eq!(documented_globals(&db), vec![true, false, false, false, false, false]);
}

#[test]
fn file_names_hold_no_reserved_characters() {
    assert_eq!(escape("Map<K,V>".to_string()), "Map_K,V_");
    assert_eq!(escape("a/b\\c:d|e?f*g\"h".to_string()), "a_b_c_d_e_f_g_h");
    assert_eq!(escape("lsp.Kind".to_string()), "lsp.Kind");
    assert_eq!(escape(String::new()), "");
    assert_eq!(page_path("class", "a/b"), "class/a_b.html");
}

#[test]
fn links_lead_to_the_pages_of_shown_types() {
    let db = db();
    let map = build_link_map(&db);
    assert_eq!(link_type(&db, &map, 0), Some("class/game.Player.html".to_string()));
    assert_eq!(link_type(&db, &map, 1), None);
    assert_eq!(link_type(&db, &map, 2), Some("enum/Color.html".to_string()));
    assert_eq!(link_type(&db, &map, 3), Some("alias/Id_T_.html".to_string()));
    assert_eq!(link_type(&db, &map, 4), None);
    assert_eq!(link_type(&db, &map, 5), None);
    assert_eq!(link_from_page(&db, &map, 2), Some("../enum/Color.html".to_string()));
    assert_eq!(link_from_page(&db, &map, 1), None);
    let files: Vec<String> = site().pages.into_iter().map(|p| p.filename).collect();
    for id in [0, 2, 3] {
        assert!(files.contains(&link_type(&db, &map, id).unwrap()));
    }
}

#[test]
fn the_later_of_two_types_of_one_name_is_linked() {
    let mut db = db();
    db.types.push(decl("Color", DeclKind::Class, &[1]));
    db.types.push(decl("Color", DeclKind::Alias, &[3]));
    let map = build_link_map(&db);
    assert_eq!(link_type(&db, &map, 2), Some("class/Color.html".to_string()));
    assert_eq!(link_type(&db, &map, 6), Some("class/Color.html".to_string()));
}

#[test]
fn a_site_has_a_page_for_all_that_is_shown() {
    let site = site();
    let files: Vec<&str> = site.pages.iter().map(|p| p.filename.as_str()).collect();
    assert_eq!(
        files,
        vec![
            "class/game.Player.html",
            "enum/Color.html",
            "alias/Id_T_.html",
            "module/main.html",
            "global/print_all.html",
        ]
    );
    let letters: Vec<&str> = site.pages.iter().map(|p| p.doc.kind_letter.as_str()).collect();
    assert_eq!(letters, vec!["C", "E", "A", "M", "G"]);
    assert_eq!(site.pages[0].doc.title, "class game.Player");
    assert_eq!(site.pages[0].doc.methods.len(), 2);
}

#[test]
fn a_page_without_a_kind_has_a_question_mark_for_a_badge() {
    let mut page = HtmlDoc { name: "x".to_string(), ..Default::default() };
    finish_doc(&NavModel::default(), &mut page);
    assert_eq!(page.kind_letter, "?");
    assert_eq!(page.nav.root_prefix, "../");
}

#[test]
fn the_navigation_lists_each_page_once() {
    let site = site();
    let mut listed: Vec<String> = items(&site.index.nav).into_iter().map(|i| i.href).collect();
    let mut files: Vec<String> = site.pages.iter().map(|p| p.filename.clone()).collect();
    listed.sort();
    files.sort();
    assert_eq!(listed, files);
    assert_eq!(
        site.index.nav.types[0],
        NavItem {
            name: "alias Id<T>".to_string(),
            href: "alias/Id_T_.html".to_string(),
            kind: "alias".to_string(),
            kind_letter: "A".to_string(),
            short_name: "Id<T>".to_string(),
            active: false,
        }
    );
}

#[test]
fn the_landing_page_has_the_name_of_the_site() {
    let site = site();
    assert_eq!(site.index.title, "index");
    assert_eq!(site.index.name, "My site");
    assert_eq!(site.index.kind, "");
    assert_eq!(site.index.nav.site_name, "My site");
    assert_eq!(site.index.nav.root_prefix, "");
    assert!(items(&site.index.nav).iter().all(|i| !i.active));
    let unnamed = build_site(&db(), docs(), None);
    assert_eq!(unnamed.index.name, "Docs");
    assert_eq!(unnamed.pages[0].doc.nav.site_name, "Docs");
}

#[test]
fn each_page_marks_itself() {
    let site = site();
    for page in &site.pages {
        let nav = &page.doc.nav;
        assert_eq!(nav.root_prefix, "../");
        let active: Vec<NavItem> = items(nav).into_iter().filter(|i| i.active).collect();
        assert_eq!(active.len(), 1);
        assert_eq!(active[0].href, page.filename);
        let unmarked: Vec<NavItem> =
            items(nav).into_iter().map(|i| NavItem { active: false, ..i }).collect();
        assert_eq!(unmarked, items(&site.index.nav));
    }
    assert!(site.pages[0].doc.nav.type_tree.iter().any(|n| n.label == "game" && n.open));
    assert!(site.pages[0].doc.nav.sidebar_html.contains("href=\"../class/game.Player.html\" class=\"nav-item active\""));
}

#[test]
fn pages_of_one_name_mark_their_own_entries() {
    let mut docs = docs();
    docs.globals[0] = doc("global", "main");
    docs.types[2] = doc("enum", "main");
    let site = build_site(&db(), docs, None);
    for page in &site.pages {
        let active: Vec<NavItem> = items(&page.doc.nav).into_iter().filter(|i| i.active).collect();
        assert_eq!(active.len(), 1);
        assert_eq!(active[0].href, page.filename);
    }
}

#[test]
fn the_link_of_a_type_is_the_file_of_its_page() {
    let db = db();
    let map = build_link_map(&db);
    let site = site();
    for (id, place) in [(0, 0), (2, 1), (3, 2)] {
        assert_eq!(site.pages[place].doc.name, db.types[id].full_name);
        assert_eq!(link_type(&db, &map, id), Some(site.pages[place].filename.clone()));
    }
}

#[test]
fn pages_lie_in_the_directories() {
    assert_eq!(kind_dirs(), vec!["class", "enum", "alias", "module", "global"]);
    for page in site().pages {
        let parts: Vec<&str> = page.filename.split('/').collect();
        assert_eq!(parts.len(), 2);
        assert!(kind_dirs().contains(&parts[0]));
    }
}

#[test]
fn an_empty_workspace_has_a_landing_page() {
    let db = DbIndex { modules: Vec::new(), types: Vec::new(), globals: Vec::new() };
    let docs = Docs { types: Vec::new(), modules: Vec::new(), globals: Vec::new() };
    let site = build_site(&db, docs, None);
    assert!(site.pages.is_empty());
    assert_eq!(site.index.nav.sidebar_html, "");
    let entries = search_entries(&site.index.nav, &site.pages);
    assert_eq!(search_index_js(&entries), Ok("window.SEARCH_INDEX = [];".to_string()));
}

fn entry(name: &str, href: &str, kind: &str) -> SearchEntry {
    SearchEntry { name: name.to_string(), href: href.to_string(), kind: kind.to_string() }
}

#[test]
fn the_search_index_is_complete() {
    let site = site();
    let entries = search_entries(&site.index.nav, &site.pages);
    assert_eq!(
        entries,
        vec![
            entry("alias Id<T>", "alias/Id_T_.html", "alias"),
            entry("class game.Player", "class/game.Player.html", "class"),
            entry("enum Color", "enum/Color.html", "enum"),
            entry("main", "module/main.html", "module"),
            entry("print_all", "global/print_all.html", "global"),
            entry("game.Player.hp", "class/game.Player.html#hp", "field"),
            entry("game.Player:hit", "class/game.Player.html#hit", "function"),
            entry("game.Player:heal", "class/game.Player.html#heal", "function"),
            entry("main.run", "module/main.html#run", "function"),
        ]
    );
    assert_eq!(entries.len(), site.pages.len() + 4);
}

#[test]
fn members_of_unlisted_pages_are_left_out() {
    let site = site();
    assert_eq!(find_href(&site.index.nav, "main"), "module/main.html");
    assert_eq!(find_href(&site.index.nav, "nowhere"), "");
    let entries = search_entries(&NavModel::default(), &site.pages);
    assert!(entries.is_empty());
    let mut nav = site.index.nav.clone();
    nav.modules[0].href = String::new();
    assert_eq!(search_entries(&nav, &site.pages).len(), 8);
}

#[test]
fn members_go_by_the_first_entry_of_the_name() {
    let mut docs = docs();
    docs.globals[0] = doc("global", "main");
    let site = build_site(&db(), docs, None);
    assert_eq!(find_href(&site.index.nav, "main"), "module/main.html");
}

#[test]
fn the_search_script_is_compact_json() {
    let entries = vec![entry("a", "class/a.html", "class"), entry("b", "b.html#x", "field")];
    assert_eq!(
        search_index_js(&entries),
        Ok("window.SEARCH_INDEX = [{\"href\":\"class/a.html\",\"kind\":\"class\",\"name\":\"a\"},{\"href\":\"b.html#x\",\"kind\":\"field\",\"name\":\"b\"}];".to_string())
    );
}

#[test]
fn the_search_script_escapes_strings() {
    let entries = vec![entry("q\"b\\s/\u{8}\t\n\u{c}\r\u{1}\u{1f}\u{7f}\u{e9}\u{2028}", "", "")];
    assert_eq!(
        search_index_js(&entries),
        Ok("window.SEARCH_INDEX = [{\"href\":\"\",\"kind\":\"\",\"name\":\"q\\\"b\\\\s/\\b\\t\\n\\f\\r\\u0001\\u001f\u{7f}\u{e9}\u{2028}\"}];".to_string())
    );
}

#[test]
fn the_search_script_can_be_read_back() {
    let entries = vec![entry("a\",\"x", "h\u{0}", "k\\"), entry("", "\u{1f600}", "]}")];
    let script = search_index_js(&entries).unwrap();
    let json = script.strip_prefix("window.SEARCH_INDEX = ").and_then(|s| s.strip_suffix(";")).unwrap();
    let value: serde_json::Value = serde_json::from_str(json).unwrap();
    let rows = value.as_array().unwrap();
    assert_eq!(rows.len(), entries.len());
    for (row, entry) in rows.iter().zip(entries.iter()) {
        assert_eq!(row["name"].as_str(), Some(entry.name.as_str()));
        assert_eq!(row["href"].as_str(), Some(entry.href.as_str()));
        assert_eq!(row["kind"].as_str(), Some(entry.kind.as_str()));
        assert_eq!(row.as_object().unwrap().len(), 3);
    }
    let other = vec![entry("a", "\",\"x", "k\\")];
    assert_ne!(search_index_js(&other).unwrap(), script);
}
