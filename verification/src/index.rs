//! What is declared in a workspace, and where its pages are.

use vstd::hash_map::StringHashMap;
use vstd::prelude::*;
use crate::text::to_chars;
use crate::types::option_view;

verus! {

/// A file that has been analysed.
#[derive(Clone, Copy, Debug, PartialEq, Eq, Structural)]
pub struct ModuleInfo {
    pub file_id: u32,
    /// Whether the file belongs to the main workspace and not to a library.
    pub main: bool,
}

/// What a type declaration declares.
#[derive(Clone, Copy, Debug, PartialEq, Eq, Structural)]
pub enum DeclKind {
    Class,
    Enum,
    /// Anything that is neither a class nor an enum.
    Alias,
}

/// A declared type.
#[derive(Debug, PartialEq, Eq)]
pub struct TypeDecl {
    pub full_name: String,
    pub kind: DeclKind,
    /// The files that the type is declared in.
    pub locations: Vec<u32>,
}

/// What is known of the type of a global.
#[derive(Clone, Copy, Debug, PartialEq, Eq, Structural)]
pub enum GlobalType {
    /// A reference to a declared type.
    Ref,
    /// The definition of a declared type.
    Def,
    /// Any other type.
    Other,
}

/// A declared global.
#[derive(Clone, Copy, Debug, PartialEq, Eq, Structural)]
pub struct GlobalDecl {
    pub file_id: u32,
    /// The type of the global; `None` where it is not known.
    pub global_type: Option<GlobalType>,
}

/// All that is declared. A type is referred to by its place in `types`.
#[derive(Debug, PartialEq, Eq)]
pub struct DbIndex {
    pub modules: Vec<ModuleInfo>,
    pub types: Vec<TypeDecl>,
    pub globals: Vec<GlobalDecl>,
}

/// The model of a `TypeDecl`.
#[verifier::ext_equal]
pub struct TypeDeclView {
    pub full_name: Seq<char>,
    pub kind: DeclKind,
    pub locations: Seq<u32>,
}

/// The model of a `DbIndex`.
#[verifier::ext_equal]
pub struct DbIndexView {
    pub modules: Seq<ModuleInfo>,
    pub types: Seq<TypeDeclView>,
    pub globals: Seq<GlobalDecl>,
}

impl View for TypeDecl {
    type V = TypeDeclView;

    open spec fn view(&self) -> TypeDeclView {
        TypeDeclView { full_name: self.full_name@, kind: self.kind, locations: self.locations@ }
    }
}

impl View for DbIndex {
    type V = DbIndexView;

    open spec fn view(&self) -> DbIndexView {
        DbIndexView {
            modules: self.modules@,
            types: self.types@.map_values(|t: TypeDecl| t@),
            globals: self.globals@,
        }
    }
}

/// The place of the module of a file; the number of modules where it has none.
pub open spec fn module_at(modules: Seq<ModuleInfo>, file_id: u32) -> int
    decreases modules.len(),
{
    if modules.len() == 0 {
        0
    } else {
        let i = module_at(modules.drop_last(), file_id);
        if i < modules.len() - 1 || modules.last().file_id == file_id {
            i
        } else {
            modules.len() as int
        }
    }
}

/// Whether a file has a module and that belongs to the main workspace.
pub open spec fn in_main(modules: Seq<ModuleInfo>, file_id: u32) -> bool {
    let i = module_at(modules, file_id);
    i < modules.len() && modules[i].main
}

fn file_in_main(modules: &Vec<ModuleInfo>, file_id: u32) -> (yes: bool)
    ensures
        yes == in_main(modules@, file_id),
{
    let mut i: usize = 0;
    assert(modules@.take(0) =~= Seq::empty());
    while i < modules.len()
        invariant
            i <= modules.len(),
            module_at(modules@.take(i as int), file_id) == i,
        decreases modules.len() - i,
    {
        proof {
            assert(modules@.take(i + 1).drop_last() =~= modules@.take(i as int));
        }
        if modules[i].file_id == file_id {
            proof {
                lemma_module_at_prefix(modules@, i + 1, file_id);
            }
            return modules[i].main;
        }
        i = i + 1;
    }
    assert(modules@.take(i as int) =~= modules@);
    false
}

proof fn lemma_module_at_prefix(modules: Seq<ModuleInfo>, n: int, file_id: u32)
    requires
        0 <= n <= modules.len(),
        module_at(modules.take(n), file_id) < n,
    ensures
        module_at(modules, file_id) == module_at(modules.take(n), file_id),
    decreases modules.len() - n,
{
    if n == modules.len() {
        assert(modules.take(n) =~= modules);
    } else {
        assert(modules.take(n + 1).drop_last() =~= modules.take(n));
        lemma_module_at_prefix(modules, n + 1, file_id);
    }
}

/// Whether one of the locations is in the main workspace.
pub open spec fn any_in_main(modules: Seq<ModuleInfo>, locations: Seq<u32>) -> bool {
    exists|i: int| 0 <= i < locations.len() && in_main(modules, #[trigger] locations[i])
}

/// Whether a type with these locations is declared in the main workspace.
pub fn type_in_main_workspace(db: &DbIndex, locations: &[u32]) -> (yes: bool)
    ensures
        yes == any_in_main(db@.modules, locations@),
{
    let mut i: usize = 0;
    while i < locations.len()
        invariant
            i <= locations.len(),
            forall|j: int| 0 <= j < i ==> !in_main(db@.modules, #[trigger] locations@[j]),
        decreases locations.len() - i,
    {
        if file_in_main(&db.modules, locations[i]) {
            assert(in_main(db@.modules, locations@[i as int]));
            return true;
        }
        i = i + 1;
    }
    false
}

/// Whether a global gets a page: it is declared in the main workspace, and its
/// type is known and is not a declared type, which has a page of its own.
pub open spec fn global_shown(modules: Seq<ModuleInfo>, global: GlobalDecl) -> bool {
    in_main(modules, global.file_id) && global.global_type == Some(GlobalType::Other)
}

/// Computes `global_shown`.
pub fn global_in_main_workspace(db: &DbIndex, global: &GlobalDecl) -> (yes: bool)
    ensures
        yes == global_shown(db@.modules, *global),
{
    if !file_in_main(&db.modules, global.file_id) {
        return false;
    }
    match global.global_type {
        None => false,
        Some(GlobalType::Ref) => false,
        Some(GlobalType::Def) => false,
        Some(GlobalType::Other) => true,
    }
}

/// Whether the type at `i` gets a page: it is declared in the main workspace.
pub open spec fn type_shown(db: DbIndexView, i: int) -> bool {
    any_in_main(db.modules, db.types[i].locations)
}

/// Whether each type gets a page.
pub open spec fn types_shown(db: DbIndexView) -> Seq<bool> {
    Seq::new(db.types.len(), |i: int| type_shown(db, i))
}

/// Whether each module gets a page: those of the main workspace do.
pub open spec fn modules_shown(db: DbIndexView) -> Seq<bool> {
    Seq::new(db.modules.len(), |i: int| in_main(db.modules, db.modules[i].file_id))
}

/// Whether each global gets a page.
pub open spec fn globals_shown(db: DbIndexView) -> Seq<bool> {
    Seq::new(db.globals.len(), |i: int| global_shown(db.modules, db.globals[i]))
}

/// Computes `types_shown`.
pub fn documented_types(db: &DbIndex) -> (shown: Vec<bool>)
    ensures
        shown@ == types_shown(db@),
{
    let mut shown: Vec<bool> = Vec::new();
    let mut i: usize = 0;
    while i < db.types.len()
        invariant
            i <= db.types.len(),
            shown@.len() == i,
            forall|j: int| 0 <= j < i ==> #[trigger] shown@[j] == type_shown(db@, j),
        decreases db.types.len() - i,
    {
        shown.push(type_in_main_workspace(db, db.types[i].locations.as_slice()));
        i = i + 1;
    }
    assert(shown@ =~= types_shown(db@));
    shown
}

/// Computes `modules_shown`.
pub fn documented_modules(db: &DbIndex) -> (shown: Vec<bool>)
    ensures
        shown@ == modules_shown(db@),
{
    let mut shown: Vec<bool> = Vec::new();
    let mut i: usize = 0;
    while i < db.modules.len()
        invariant
            i <= db.modules.len(),
            shown@.len() == i,
            forall|j: int|
                0 <= j < i ==> #[trigger] shown@[j] == in_main(db@.modules, db@.modules[j].file_id),
        decreases db.modules.len() - i,
    {
        shown.push(file_in_main(&db.modules, db.modules[i].file_id));
        i = i + 1;
    }
    assert(shown@ =~= modules_shown(db@));
    shown
}

/// Computes `globals_shown`.
pub fn documented_globals(db: &DbIndex) -> (shown: Vec<bool>)
    ensures
        shown@ == globals_shown(db@),
{
    let mut shown: Vec<bool> = Vec::new();
    let mut i: usize = 0;
    while i < db.globals.len()
        invariant
            i <= db.globals.len(),
            shown@.len() == i,
            forall|j: int| 0 <= j < i ==> #[trigger] shown@[j] == global_shown(db@.modules, db@.globals[j]),
        decreases db.globals.len() - i,
    {
        shown.push(global_in_main_workspace(db, &db.globals[i]));
        i = i + 1;
    }
    assert(shown@ =~= globals_shown(db@));
    shown
}

/// Whether a character cannot stand in the name of a file everywhere. Which
/// characters count is this library's own choice: those that some common file
/// system reserves.
pub open spec fn is_reserved(c: char) -> bool {
    c == '<' || c == '>' || c == ':' || c == '"' || c == '/' || c == '\\' || c == '|' || c == '?' || c == '*'
}

/// A name as the name of a file: reserved characters are replaced.
pub open spec fn file_name(name: Seq<char>) -> Seq<char> {
    name.map_values(
        |c: char|
            if is_reserved(c) {
                '_'
            } else {
                c
            },
    )
}

/// Computes `file_name`. The characters that are replaced, and what replaces them,
/// are this library's own choice.
pub fn escape(name: String) -> (safe: String)
    ensures
        safe@ == file_name(name@),
{
    let chars = to_chars(name.as_str());
    let mut safe: String = String::new();
    let mut i: usize = 0;
    while i < chars.len()
        invariant
            i <= chars.len(),
            chars@ == name@,
            safe@ == file_name(name@).take(i as int),
        decreases chars.len() - i,
    {
        let c: char = chars[i];
        let reserved: bool = c == '<' || c == '>' || c == ':' || c == '"' || c == '/' || c == '\\' || c == '|' || c
            == '?' || c == '*';
        safe.push(if reserved { '_' } else { c });
        proof {
            assert(file_name(name@).take(i + 1) =~= file_name(name@).take(i as int).push(file_name(name@)[i as int]));
        }
        i = i + 1;
    }
    assert(file_name(name@).take(i as int) =~= file_name(name@));
    safe
}

/// The page of the declaration `name` of kind `kind`, relative to the root of the
/// site.
pub open spec fn page_href(kind: Seq<char>, name: Seq<char>) -> Seq<char> {
    kind + "/"@ + file_name(name) + ".html"@
}

/// Computes `page_href`.
pub fn page_path(kind: &str, name: &str) -> (href: String)
    ensures
        href@ == page_href(kind@, name@),
{
    let mut href: String = kind.to_string();
    href.append("/");
    href.append(escape(name.to_string()).as_str());
    href.append(".html");
    href
}

/// The name of a kind of type.
pub open spec fn kind_text(kind: DeclKind) -> Seq<char> {
    match kind {
        DeclKind::Class => "class"@,
        DeclKind::Enum => "enum"@,
        DeclKind::Alias => "alias"@,
    }
}

/// The pages of those of the first `n` types that get one, by full name. Of two
/// such types with one name the later counts.
pub open spec fn first_links(db: DbIndexView, n: int) -> Map<Seq<char>, Seq<char>>
    decreases n,
{
    if n <= 0 {
        Map::empty()
    } else {
        let typ = db.types[n - 1];
        if type_shown(db, n - 1) {
            first_links(db, n - 1).insert(typ.full_name, page_href(kind_text(typ.kind), typ.full_name))
        } else {
            first_links(db, n - 1)
        }
    }
}

/// The page of each type that gets one, by full name.
pub open spec fn links(db: DbIndexView) -> Map<Seq<char>, Seq<char>> {
    first_links(db, db.types.len() as int)
}

/// The views of the links.
pub open spec fn link_views(map: Map<Seq<char>, String>) -> Map<Seq<char>, Seq<char>> {
    map.map_values(|href: String| href@)
}

/// Maps the full name of every type that gets a page to that page.
pub fn build_link_map(db: &DbIndex) -> (map: StringHashMap<String>)
    ensures
        link_views(map@) == links(db@),
{
    let mut map: StringHashMap<String> = StringHashMap::new();
    let mut i: usize = 0;
    assert(link_views(map@) =~= first_links(db@, 0));
    while i < db.types.len()
        invariant
            i <= db.types.len(),
            link_views(map@) == first_links(db@, i as int),
        decreases db.types.len() - i,
    {
        let typ = &db.types[i];
        assert(db@.types[i as int] == typ@);
        if type_in_main_workspace(db, typ.locations.as_slice()) {
            let kind: &str = match typ.kind {
                DeclKind::Class => "class",
                DeclKind::Enum => "enum",
                DeclKind::Alias => "alias",
            };
            let href = page_path(kind, typ.full_name.as_str());
            let ghost before = map@;
            map.insert(typ.full_name.clone(), href);
            assert(link_views(map@) =~= link_views(before).insert(typ.full_name@, href@));
        }
        i = i + 1;
    }
    map
}

/// The page of the type at `id`, relative to the root of the site; `None` where
/// there is no such type or it gets no page.
pub open spec fn link_of(db: DbIndexView, map: Map<Seq<char>, Seq<char>>, id: int) -> Option<Seq<char>> {
    if 0 <= id < db.types.len() && map.contains_key(db.types[id].full_name) {
        Some(map[db.types[id].full_name])
    } else {
        None
    }
}

/// Computes `link_of`.
pub fn link_type(db: &DbIndex, link_map: &StringHashMap<String>, id: usize) -> (href: Option<String>)
    ensures
        option_view(href) == link_of(db@, link_views(link_map@), id as int),
{
    if id >= db.types.len() {
        return None;
    }
    assert(db@.types[id as int] == db.types@[id as int]@);
    match link_map.get(db.types[id].full_name.as_str()) {
        Some(href) => Some(href.clone()),
        None => None,
    }
}

/// The page of the type at `id`, relative to a page one level below the root.
pub open spec fn link_from_below(db: DbIndexView, map: Map<Seq<char>, Seq<char>>, id: int) -> Option<Seq<char>> {
    match link_of(db, map, id) {
        Some(page) => Some("../"@ + page),
        None => None,
    }
}

/// Computes `link_from_below`.
pub fn link_from_page(db: &DbIndex, link_map: &StringHashMap<String>, id: usize) -> (href: Option<String>)
    ensures
        option_view(href) == link_from_below(db@, link_views(link_map@), id as int),
{
    match link_type(db, link_map, id) {
        Some(page) => {
            let mut href: String = "../".to_string();
            href.append(page.as_str());
            Some(href)
        },
        None => None,
    }
}

/// A name never leads out of its directory: as the name of a file it holds no
/// separator, and it keeps its length.
pub proof fn law_file_name_has_no_separator(name: Seq<char>)
    ensures
        file_name(name).len() == name.len(),
        forall|i: int| 0 <= i < name.len() ==> !is_reserved(#[trigger] file_name(name)[i]),
{
}

/// Every type that gets a page has a link, other types have none, and each link
/// is the page of a type of that name that gets one.
pub proof fn law_links_are_those_of_shown_types(db: DbIndexView)
    ensures
        forall|i: int|
            0 <= i < db.types.len() && #[trigger] type_shown(db, i) ==> links(db).contains_key(db.types[i].full_name),
        forall|name: Seq<char>| #[trigger]
            links(db).contains_key(name) ==> exists|i: int|
                0 <= i < db.types.len() && #[trigger] type_shown(db, i) && db.types[i].full_name == name && links(
                    db,
                )[name] == page_href(kind_text(db.types[i].kind), name),
{
    lemma_first_links(db, db.types.len() as int);
}

proof fn lemma_first_links(db: DbIndexView, n: int)
    requires
        0 <= n <= db.types.len(),
    ensures
        forall|i: int|
            0 <= i < n && #[trigger] type_shown(db, i) ==> first_links(db, n).contains_key(db.types[i].full_name),
        forall|name: Seq<char>| #[trigger]
            first_links(db, n).contains_key(name) ==> exists|i: int|
                0 <= i < n && #[trigger] type_shown(db, i) && db.types[i].full_name == name && first_links(db, n)[name]
                    == page_href(kind_text(db.types[i].kind), name),
    decreases n,
{
    if n > 0 {
        let typ = db.types[n - 1];
        lemma_first_links(db, n - 1);
        assert forall|name: Seq<char>| #[trigger] first_links(db, n).contains_key(name) implies exists|i: int|
            0 <= i < n && #[trigger] type_shown(db, i) && db.types[i].full_name == name && first_links(db, n)[name]
                == page_href(kind_text(db.types[i].kind), name) by {
            if type_shown(db, n - 1) && name == typ.full_name {
                assert(type_shown(db, n - 1));
            } else {
                assert(first_links(db, n - 1).contains_key(name));
                let i = choose|i: int|
                    0 <= i < n - 1 && #[trigger] type_shown(db, i) && db.types[i].full_name == name && first_links(
                        db,
                        n - 1,
                    )[name] == page_href(kind_text(db.types[i].kind), name);
                assert(type_shown(db, i));
            }
        }
    }
}

} // verus!
