//! What holds of the declarations that get a page and of the links to them.

use vstd::prelude::*;
use crate::index::{
    any_in_main, file_name, first_links, global_shown, globals_shown, in_main, link_from_below, link_of, link_views,
    links, module_at, modules_shown, page_href, type_shown, types_shown, DbIndex, DbIndexView, DeclKind, GlobalDecl,
    GlobalType, ModuleInfo,
};

verus! {

/// Whether a file belongs to the main workspace: of the modules of that file, the
/// first does.
pub open spec fn is_main_file(modules: Seq<ModuleInfo>, file_id: u32) -> bool {
    exists|i: int|
        0 <= i < modules.len() && (#[trigger] modules[i]).file_id == file_id && modules[i].main && forall|j: int|
            0 <= j < i ==> (#[trigger] modules[j]).file_id != file_id
}

/// A file is in the main workspace if and only if its module says so. A file
/// without a module is not.
pub proof fn law_files_go_by_their_module(modules: Seq<ModuleInfo>, file_id: u32)
    ensures
        in_main(modules, file_id) <==> is_main_file(modules, file_id),
{
    lemma_module_at(modules, file_id);
    let i = module_at(modules, file_id);
    if is_main_file(modules, file_id) {
        let k = choose|k: int|
            0 <= k < modules.len() && (#[trigger] modules[k]).file_id == file_id && modules[k].main && forall|j: int|
                0 <= j < k ==> (#[trigger] modules[j]).file_id != file_id;
        assert(i == k) by {
            if i < k {
                assert(modules[i].file_id != file_id);
            } else if k < i {
                assert(modules[k].file_id != file_id);
            }
        }
    }
    if in_main(modules, file_id) {
        assert(modules[i].main);
    }
}

proof fn lemma_module_at(modules: Seq<ModuleInfo>, file_id: u32)
    ensures
        0 <= module_at(modules, file_id) <= modules.len(),
        module_at(modules, file_id) < modules.len() ==> modules[module_at(modules, file_id)].file_id == file_id,
        forall|j: int| 0 <= j < module_at(modules, file_id) ==> (#[trigger] modules[j]).file_id != file_id,
    decreases modules.len(),
{
    if modules.len() > 0 {
        let front = modules.drop_last();
        lemma_module_at(front, file_id);
        assert forall|j: int| 0 <= j < module_at(modules, file_id) implies (#[trigger] modules[j]).file_id
            != file_id by {
            if j < front.len() {
                assert(modules[j] == front[j]);
            }
        }
    }
}

/// A type is in the main workspace if and only if any one of its locations is,
/// whichever it is.
pub proof fn law_any_location_counts(modules: Seq<ModuleInfo>, locations: Seq<u32>)
    ensures
        any_in_main(modules, locations) <==> exists|k: int|
            0 <= k < locations.len() && is_main_file(modules, #[trigger] locations[k]),
{
    if any_in_main(modules, locations) {
        let k = choose|k: int| 0 <= k < locations.len() && in_main(modules, #[trigger] locations[k]);
        law_files_go_by_their_module(modules, locations[k]);
    }
    if exists|k: int| 0 <= k < locations.len() && is_main_file(modules, #[trigger] locations[k]) {
        let k = choose|k: int| 0 <= k < locations.len() && is_main_file(modules, #[trigger] locations[k]);
        law_files_go_by_their_module(modules, locations[k]);
    }
}

/// Neither does the order of the locations of a type matter, nor can a further
/// location hide it: a type that has all the locations of one that is shown is
/// shown.
pub proof fn law_locations_never_hide(modules: Seq<ModuleInfo>, few: Seq<u32>, many: Seq<u32>)
    requires
        forall|k: int| 0 <= k < few.len() ==> many.contains(#[trigger] few[k]),
        any_in_main(modules, few),
    ensures
        any_in_main(modules, many),
{
    law_any_location_counts(modules, few);
    law_any_location_counts(modules, many);
    let k = choose|k: int| 0 <= k < few.len() && is_main_file(modules, #[trigger] few[k]);
    let j = choose|j: int| 0 <= j < many.len() && many[j] == few[k];
    assert(is_main_file(modules, many[j]));
}

/// A type gets a page if and only if one of its locations is in the main
/// workspace.
pub proof fn law_types_of_the_main_workspace_are_shown(db: DbIndexView, i: int)
    requires
        0 <= i < db.types.len(),
    ensures
        types_shown(db).len() == db.types.len(),
        types_shown(db)[i] == type_shown(db, i),
        type_shown(db, i) <==> exists|k: int|
            0 <= k < db.types[i].locations.len() && is_main_file(db.modules, #[trigger] db.types[i].locations[k]),
{
    law_any_location_counts(db.modules, db.types[i].locations);
}

/// A module gets a page if and only if its file is in the main workspace.
pub proof fn law_modules_of_the_main_workspace_are_shown(db: DbIndexView, i: int)
    requires
        0 <= i < db.modules.len(),
    ensures
        modules_shown(db).len() == db.modules.len(),
        modules_shown(db)[i] <==> is_main_file(db.modules, db.modules[i].file_id),
{
    law_files_go_by_their_module(db.modules, db.modules[i].file_id);
}

/// A global gets a page if and only if its file is in the main workspace, its type
/// is known, and that is neither a reference to a declared type nor the definition
/// of one.
pub proof fn law_globals_of_their_own_type_are_shown(modules: Seq<ModuleInfo>, global: GlobalDecl)
    ensures
        global_shown(modules, global) <==> is_main_file(modules, global.file_id) && global.global_type is Some
            && global.global_type != Some(GlobalType::Ref) && global.global_type != Some(GlobalType::Def),
{
    law_files_go_by_their_module(modules, global.file_id);
    match global.global_type {
        None => {},
        Some(GlobalType::Ref) => {},
        Some(GlobalType::Def) => {},
        Some(GlobalType::Other) => {},
    }
}

/// The globals that get a page are found one by one.
pub proof fn law_globals_are_shown_one_by_one(db: DbIndexView, i: int)
    requires
        0 <= i < db.globals.len(),
    ensures
        globals_shown(db).len() == db.globals.len(),
        globals_shown(db)[i] == global_shown(db.modules, db.globals[i]),
{
}

/// The characters that no file name holds.
pub open spec fn kept_out() -> Seq<char> {
    seq!['<', '>', ':', '"', '/', '\\', '|', '?', '*']
}

/// As the name of a file, a name has an underscore in place of each character that
/// is kept out, and is otherwise the same.
pub proof fn law_file_name_replaces_what_is_kept_out(name: Seq<char>)
    ensures
        file_name(name).len() == name.len(),
        forall|i: int|
            0 <= i < name.len() ==> #[trigger] file_name(name)[i] == if kept_out().contains(name[i]) {
                '_'
            } else {
                name[i]
            },
{
    assert forall|i: int| 0 <= i < name.len() implies #[trigger] file_name(name)[i] == if kept_out().contains(
        name[i],
    ) {
        '_'
    } else {
        name[i]
    } by {
        let c = name[i];
        let k = kept_out();
        assert(k[0] == '<' && k[1] == '>' && k[2] == ':' && k[3] == '"' && k[4] == '/' && k[5] == '\\' && k[6] == '|'
            && k[7] == '?' && k[8] == '*');
    }
}

/// A page lies in the directory of its kind, under its name as the name of a file,
/// and ends in `.html`.
pub proof fn law_page_lies_under_its_kind(kind: Seq<char>, name: Seq<char>)
    ensures
        page_href(kind, name).len() == kind.len() + name.len() + 6,
        page_href(kind, name).take(kind.len() as int) == kind,
        page_href(kind, name)[kind.len() as int] == '/',
        page_href(kind, name).subrange(kind.len() as int + 1, kind.len() as int + name.len() + 1) == file_name(name),
        page_href(kind, name).skip(kind.len() as int + name.len() + 1) == seq!['.', 'h', 't', 'm', 'l'],
{
    reveal_strlit("/");
    reveal_strlit(".html");
    let href = page_href(kind, name);
    assert(href.take(kind.len() as int) =~= kind);
    assert(href.subrange(kind.len() as int + 1, kind.len() as int + name.len() + 1) =~= file_name(name));
    assert(href.skip(kind.len() as int + name.len() + 1) =~= seq!['.', 'h', 't', 'm', 'l']);
}

/// The directory of the pages of a kind of type.
pub open spec fn dir_of(kind: DeclKind) -> Seq<char> {
    match kind {
        DeclKind::Class => seq!['c', 'l', 'a', 's', 's'],
        DeclKind::Enum => seq!['e', 'n', 'u', 'm'],
        DeclKind::Alias => seq!['a', 'l', 'i', 'a', 's'],
    }
}

/// A name is linked if and only if a type of that name is shown. The link is the
/// page of the last of those, in the directory of its kind.
pub proof fn law_links_lead_to_the_last_type_of_a_name(db: DbIndexView, i: int)
    requires
        0 <= i < db.types.len(),
        type_shown(db, i),
        forall|j: int|
            i < j < db.types.len() && #[trigger] type_shown(db, j) ==> db.types[j].full_name
                != db.types[i].full_name,
    ensures
        links(db).contains_key(db.types[i].full_name),
        links(db)[db.types[i].full_name] == page_href(dir_of(db.types[i].kind), db.types[i].full_name),
{
    lemma_last_link(db, db.types.len() as int, i);
}

proof fn lemma_last_link(db: DbIndexView, n: int, i: int)
    requires
        0 <= i < n <= db.types.len(),
        type_shown(db, i),
        forall|j: int| i < j < n && #[trigger] type_shown(db, j) ==> db.types[j].full_name != db.types[i].full_name,
    ensures
        first_links(db, n).contains_key(db.types[i].full_name),
        first_links(db, n)[db.types[i].full_name] == page_href(dir_of(db.types[i].kind), db.types[i].full_name),
    decreases n,
{
    if i == n - 1 {
        reveal_strlit("class");
        reveal_strlit("enum");
        reveal_strlit("alias");
        assert("class"@ =~= seq!['c', 'l', 'a', 's', 's']);
        assert("enum"@ =~= seq!['e', 'n', 'u', 'm']);
        assert("alias"@ =~= seq!['a', 'l', 'i', 'a', 's']);
    } else {
        lemma_last_link(db, n - 1, i);
        assert(type_shown(db, n - 1) ==> db.types[n - 1].full_name != db.types[i].full_name);
    }
}

/// Names of types that are not shown have no link.
pub proof fn law_other_names_have_no_link(db: DbIndexView, name: Seq<char>)
    requires
        forall|i: int| 0 <= i < db.types.len() && #[trigger] type_shown(db, i) ==> db.types[i].full_name != name,
    ensures
        !links(db).contains_key(name),
{
    lemma_no_link(db, db.types.len() as int, name);
}

proof fn lemma_no_link(db: DbIndexView, n: int, name: Seq<char>)
    requires
        0 <= n <= db.types.len(),
        forall|i: int| 0 <= i < n && #[trigger] type_shown(db, i) ==> db.types[i].full_name != name,
    ensures
        !first_links(db, n).contains_key(name),
    decreases n,
{
    if n > 0 {
        lemma_no_link(db, n - 1, name);
        assert(type_shown(db, n - 1) ==> db.types[n - 1].full_name != name);
    }
}

/// The link of a type is what the map holds under its full name. A page one level
/// down goes up first.
pub proof fn law_links_go_by_full_name(db: DbIndexView, map: Map<Seq<char>, Seq<char>>, id: int)
    ensures
        !(0 <= id < db.types.len()) ==> link_of(db, map, id) is None,
        0 <= id < db.types.len() && !map.contains_key(db.types[id].full_name) ==> link_of(db, map, id) is None,
        0 <= id < db.types.len() && map.contains_key(db.types[id].full_name) ==> link_of(db, map, id) == Some(
            map[db.types[id].full_name],
        ),
        link_from_below(db, map, id) is Some <==> link_of(db, map, id) is Some,
        link_of(db, map, id) is Some ==> link_from_below(db, map, id)->0 == seq!['.', '.', '/'] + link_of(
            db,
            map,
            id,
        )->0,
{
    reveal_strlit("../");
    assert("../"@ =~= seq!['.', '.', '/']);
}

/// The model of the declarations keeps all of them, in their order.
pub proof fn law_index_model_is_faithful(db: DbIndex)
    ensures
        db@.modules == db.modules@,
        db@.globals == db.globals@,
        db@.types.len() == db.types@.len(),
        forall|i: int|
            0 <= i < db.types@.len() ==> (#[trigger] db@.types[i]).full_name == db.types@[i].full_name@
                && db@.types[i].kind == db.types@[i].kind && db@.types[i].locations == db.types@[i].locations@,
{
}

/// The model of a link map holds what the map holds.
pub proof fn law_link_model_is_faithful(map: Map<Seq<char>, String>, name: Seq<char>)
    ensures
        link_views(map).contains_key(name) <==> map.contains_key(name),
        map.contains_key(name) ==> link_views(map)[name] == map[name]@,
{
}

} // verus!
