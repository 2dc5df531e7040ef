//! The sidebar as HTML.

use vstd::prelude::*;
use crate::text::{decimal, digits, same_text, to_chars};
use crate::types::{forest_view, item_views, NavItem, NavItemView, NavModel, NavModelView, NavTreeNode, NavTreeView};

verus! {

/// How a character is written in HTML text and in a quoted attribute. Which
/// characters are written as entities is this library's own choice: those that
/// mean something in either place. A single quote is none of them, as attributes
/// are quoted by double quotes.
pub open spec fn escaped_char(c: char) -> Seq<char> {
    if c == '&' {
        "&amp;"@
    } else if c == '<' {
        "&lt;"@
    } else if c == '>' {
        "&gt;"@
    } else if c == '"' {
        "&quot;"@
    } else {
        seq![c]
    }
}

/// How a piece of text is written in HTML text and in a quoted attribute.
pub open spec fn escaped(s: Seq<char>) -> Seq<char>
    decreases s.len(),
{
    if s.len() == 0 {
        Seq::empty()
    } else {
        escaped(s.drop_last()) + escaped_char(s.last())
    }
}

/// Computes `escaped`. The characters that are escaped are this library's own
/// choice.
pub fn html_escape(s: &str) -> (html: String)
    ensures
        html@ == escaped(s@),
{
    let chars = to_chars(s);
    let mut html: String = String::new();
    let mut i: usize = 0;
    while i < chars.len()
        invariant
            i <= chars.len(),
            chars@ == s@,
            html@ == escaped(s@.take(i as int)),
        decreases chars.len() - i,
    {
        let c: char = chars[i];
        proof {
            assert(s@.take(i + 1).drop_last() =~= s@.take(i as int));
        }
        if c == '&' {
            html.append("&amp;");
        } else if c == '<' {
            html.append("&lt;");
        } else if c == '>' {
            html.append("&gt;");
        } else if c == '"' {
            html.append("&quot;");
        } else {
            html.push(c);
        }
        i = i + 1;
    }
    assert(s@.take(i as int) =~= s@);
    html
}

/// The opening of a category: its title, a badge with the number of its entries,
/// and the start of their list.
pub open spec fn header_html(title: Seq<char>, count: nat) -> Seq<char> {
    "<div class=\"sidebar-category\"><div class=\"category-title\">"@ + title + "<span class=\"category-count\">"@
        + digits(count) + "</span></div><ul>"@
}

/// Opens a category of the sidebar.
pub fn category_header(title: &str, count: usize) -> (html: String)
    ensures
        html@ == header_html(title@, count as nat),
{
    let mut html: String = "<div class=\"sidebar-category\"><div class=\"category-title\">".to_string();
    html.append(title);
    html.append("<span class=\"category-count\">");
    html.append(decimal(count).as_str());
    html.append("</span></div><ul>");
    html
}

/// The letter shown next to a type of the given kind.
pub open spec fn badge(kind: Seq<char>) -> Seq<char> {
    if kind == "class"@ {
        "C"@
    } else if kind == "enum"@ {
        "E"@
    } else if kind == "alias"@ {
        "A"@
    } else {
        "T"@
    }
}

/// Computes `badge`.
pub fn kind_badge(kind: &str) -> (letter: &'static str)
    ensures
        letter@ == badge(kind@),
{
    if same_text(kind, "class") {
        "C"
    } else if same_text(kind, "enum") {
        "E"
    } else if same_text(kind, "alias") {
        "A"
    } else {
        "T"
    }
}

/// What an active entry adds to its class.
pub open spec fn active_class(active: bool) -> Seq<char> {
    if active {
        " active"@
    } else {
        ""@
    }
}

/// The opening tag of the link of an entry. `prefix` leads to the root of the
/// site.
pub open spec fn link_html(name: Seq<char>, prefix: Seq<char>, href: Seq<char>, active: bool) -> Seq<char> {
    "<li><a data-name=\""@ + escaped(name) + "\" href=\""@ + prefix + escaped(href) + "\" class=\"nav-item"@
        + active_class(active) + "\">"@
}

fn open_link(name: &str, prefix: &str, href: &str, active: bool) -> (html: String)
    ensures
        html@ == link_html(name@, prefix@, href@, active),
{
    let mut html: String = "<li><a data-name=\"".to_string();
    html.append(html_escape(name).as_str());
    html.append("\" href=\"");
    html.append(prefix);
    html.append(html_escape(href).as_str());
    html.append("\" class=\"nav-item");
    html.append(if active { " active" } else { "" });
    html.append("\">");
    html
}

/// An entry of a flat list.
pub open spec fn flat_item_html(item: NavItemView, prefix: Seq<char>) -> Seq<char> {
    link_html(item.name, prefix, item.href, item.active) + escaped(item.name) + "</a></li>"@
}

/// Renders an entry of a flat list.
pub fn render_flat_item(item: &NavItem, root_prefix: &str) -> (html: String)
    ensures
        html@ == flat_item_html(item@, root_prefix@),
{
    let mut html: String = open_link(item.name.as_str(), root_prefix, item.href.as_str(), item.active);
    html.append(html_escape(item.name.as_str()).as_str());
    html.append("</a></li>");
    html
}

/// The entries of a flat list.
pub open spec fn flat_items_html(items: Seq<NavItemView>, prefix: Seq<char>) -> Seq<char>
    decreases items.len(),
{
    if items.len() == 0 {
        Seq::empty()
    } else {
        flat_items_html(items.drop_last(), prefix) + flat_item_html(items.last(), prefix)
    }
}

/// A leaf or a folder of the tree of types, with what is under it.
pub open spec fn node_html(node: NavTreeView, prefix: Seq<char>) -> Seq<char>
    decreases node,
{
    match node.href {
        Some(href) => link_html(
            match node.data_name {
                Some(name) => name,
                None => node.label,
            },
            prefix,
            href,
            node.active,
        ) + "<span class=\"kind-badge kind-"@ + escaped(node.kind) + "\" aria-hidden=\"true\">"@ + badge(node.kind)
            + "</span><span class=\"nav-label\">"@ + escaped(node.label) + "</span></a></li>"@,
        None => "<li><details"@ + (if node.open {
            " open"@
        } else {
            ""@
        })
            + "><summary class=\"group-label\"><span class=\"group-caret\" aria-hidden=\"true\"></span><span class=\"nav-label\">"@
            + escaped(node.label) + "</span></summary><ul>"@ + tree_html(node.children, prefix)
            + "</ul></details></li>"@,
    }
}

/// The nodes of a tree, one after the other.
pub open spec fn tree_html(nodes: Seq<NavTreeView>, prefix: Seq<char>) -> Seq<char>
    decreases nodes,
{
    if nodes.len() == 0 {
        Seq::empty()
    } else {
        tree_html(nodes.drop_last(), prefix) + node_html(nodes.last(), prefix)
    }
}

/// Renders the nodes of a tree.
pub fn render_tree_html(nodes: &[NavTreeNode], root_prefix: &str) -> (html: String)
    ensures
        html@ == tree_html(forest_view(nodes@), root_prefix@),
    decreases nodes@,
{
    let mut html: String = String::new();
    let mut i: usize = 0;
    let ghost views = forest_view(nodes@);
    assert(views.take(0) =~= Seq::empty());
    while i < nodes.len()
        invariant
            i <= nodes.len(),
            views == forest_view(nodes@),
            html@ == tree_html(views.take(i as int), root_prefix@),
        decreases nodes.len() - i,
    {
        let node = &nodes[i];
        let ghost before = html@;
        match &node.href {
            Some(href) => {
                let data: &str = match &node.data_name {
                    Some(name) => name.as_str(),
                    None => node.label.as_str(),
                };
                let mut part: String = open_link(data, root_prefix, href.as_str(), node.active);
                part.append("<span class=\"kind-badge kind-");
                part.append(html_escape(node.kind.as_str()).as_str());
                part.append("\" aria-hidden=\"true\">");
                part.append(kind_badge(node.kind.as_str()));
                part.append("</span><span class=\"nav-label\">");
                part.append(html_escape(node.label.as_str()).as_str());
                part.append("</span></a></li>");
                assert(part@ == node_html(views[i as int], root_prefix@));
                html.append(part.as_str());
            },
            None => {
                let mut part: String = "<li><details".to_string();
                part.append(if node.open { " open" } else { "" });
                part.append(
                    "><summary class=\"group-label\"><span class=\"group-caret\" aria-hidden=\"true\"></span><span class=\"nav-label\">",
                );
                part.append(html_escape(node.label.as_str()).as_str());
                part.append("</span></summary><ul>");
                part.append(render_tree_html(node.children.as_slice(), root_prefix).as_str());
                part.append("</ul></details></li>");
                assert(part@ == node_html(views[i as int], root_prefix@));
                html.append(part.as_str());
            },
        }
        proof {
            assert(views.take(i + 1).drop_last() =~= views.take(i as int));
            assert(html@ == before + node_html(views[i as int], root_prefix@));
        }
        i = i + 1;
    }
    assert(views.take(i as int) =~= views);
    html
}

/// A category of the sidebar; nothing where it has no entries.
pub open spec fn category_html(title: Seq<char>, count: nat, body: Seq<char>, shown: bool) -> Seq<char> {
    if shown {
        header_html(title, count) + body + "</ul></div>"@
    } else {
        Seq::empty()
    }
}

/// The sidebar: the tree of types, then the flat lists of modules and globals.
pub open spec fn sidebar(nav: NavModelView) -> Seq<char> {
    category_html("Types"@, nav.types.len(), tree_html(nav.type_tree, nav.root_prefix), nav.type_tree.len() > 0)
        + category_html(
        "Modules"@,
        nav.modules.len(),
        flat_items_html(nav.modules, nav.root_prefix),
        nav.modules.len() > 0,
    ) + category_html(
        "Globals"@,
        nav.globals.len(),
        flat_items_html(nav.globals, nav.root_prefix),
        nav.globals.len() > 0,
    )
}

/// Renders the sidebar.
pub fn build_sidebar_html(nav: &NavModel) -> (html: String)
    ensures
        html@ == sidebar(nav@),
{
    let mut html: String = String::new();
    if nav.type_tree.len() > 0 {
        html.append(category_header("Types", nav.types.len()).as_str());
        html.append(render_tree_html(nav.type_tree.as_slice(), nav.root_prefix.as_str()).as_str());
        html.append("</ul></div>");
    }
    let ghost first = html@;
    assert(first =~= category_html(
        "Types"@,
        nav@.types.len(),
        tree_html(nav@.type_tree, nav@.root_prefix),
        nav@.type_tree.len() > 0,
    ));
    append_flat(&mut html, "Modules", &nav.modules, nav.root_prefix.as_str());
    append_flat(&mut html, "Globals", &nav.globals, nav.root_prefix.as_str());
    html
}

/// Appends the category of a flat list.
fn append_flat(html: &mut String, title: &str, items: &Vec<NavItem>, root_prefix: &str)
    ensures
        final(html)@ == old(html)@ + category_html(
            title@,
            items@.len(),
            flat_items_html(item_views(items@), root_prefix@),
            items@.len() > 0,
        ),
{
    let ghost before = html@;
    let ghost views = item_views(items@);
    if items.len() > 0 {
        html.append(category_header(title, items.len()).as_str());
        let ghost opened = html@;
        let mut i: usize = 0;
        assert(views.take(0) =~= Seq::empty());
        assert(html@ =~= opened + flat_items_html(views.take(0), root_prefix@));
        while i < items.len()
            invariant
                i <= items.len(),
                views == item_views(items@),
                html@ == opened + flat_items_html(views.take(i as int), root_prefix@),
            decreases items.len() - i,
        {
            html.append(render_flat_item(&items[i], root_prefix).as_str());
            proof {
                assert(views.take(i + 1).drop_last() =~= views.take(i as int));
                assert(views.take(i + 1).last() == items@[i as int]@);
                assert(html@ =~= opened + flat_items_html(views.take(i + 1), root_prefix@));
            }
            i = i + 1;
        }
        assert(views.take(i as int) =~= views);
        html.append("</ul></div>");
        assert(html@ =~= before + category_html(
            title@,
            items@.len(),
            flat_items_html(views, root_prefix@),
            items@.len() > 0,
        ));
    } else {
        assert(html@ =~= before + Seq::<char>::empty());
    }
}

/// Escaped text cannot open or close a tag and cannot end a quoted attribute.
pub proof fn law_escaped_text_is_inert(s: Seq<char>)
    ensures
        forall|i: int|
            0 <= i < escaped(s).len() ==> #[trigger] escaped(s)[i] != '<' && escaped(s)[i] != '>' && escaped(s)[i]
                != '"',
    decreases s.len(),
{
    reveal_strlit("&amp;");
    reveal_strlit("&lt;");
    reveal_strlit("&gt;");
    reveal_strlit("&quot;");
    if s.len() > 0 {
        law_escaped_text_is_inert(s.drop_last());
        let front = escaped(s.drop_last());
        assert forall|i: int| 0 <= i < escaped(s).len() implies #[trigger] escaped(s)[i] != '<' && escaped(s)[i]
            != '>' && escaped(s)[i] != '"' by {
            if i < front.len() {
                assert(escaped(s)[i] == front[i]);
            } else {
                assert(escaped(s)[i] == escaped_char(s.last())[i - front.len()]);
            }
        }
    }
}

proof fn lemma_escaped_first(s: Seq<char>)
    requires
        s.len() > 0,
    ensures
        escaped(s) == escaped_char(s[0]) + escaped(s.drop_first()),
    decreases s.len(),
{
    if s.len() == 1 {
        assert(s.drop_last() =~= Seq::empty());
        assert(s.drop_first() =~= Seq::empty());
        assert(escaped(s) =~= escaped_char(s[0]) + escaped(s.drop_first()));
    } else {
        let front = s.drop_last();
        lemma_escaped_first(front);
        assert(front.drop_first() =~= s.drop_first().drop_last());
        assert(escaped(s) =~= escaped_char(s[0]) + escaped(s.drop_first()));
    }
}

/// Escaping loses nothing: different pieces of text stay different.
pub proof fn law_escaped_text_tells_apart(a: Seq<char>, b: Seq<char>)
    requires
        escaped(a) == escaped(b),
    ensures
        a == b,
    decreases a.len(),
{
    reveal_strlit("&amp;");
    reveal_strlit("&lt;");
    reveal_strlit("&gt;");
    reveal_strlit("&quot;");
    if a.len() > 0 {
        lemma_escaped_first(a);
    }
    if b.len() > 0 {
        lemma_escaped_first(b);
    }
    if a.len() > 0 && b.len() > 0 {
        let (ea, eb) = (escaped_char(a[0]), escaped_char(b[0]));
        let (ra, rb) = (escaped(a.drop_first()), escaped(b.drop_first()));
        assert((ea + ra)[0] == ea[0] && (eb + rb)[0] == eb[0]);
        if ea.len() > 1 && eb.len() > 1 {
            assert((ea + ra)[1] == ea[1] && (eb + rb)[1] == eb[1]);
        }
        assert(a[0] == b[0]);
        assert(ra =~= (ea + ra).skip(ea.len() as int));
        assert(rb =~= (eb + rb).skip(ea.len() as int));
        law_escaped_text_tells_apart(a.drop_first(), b.drop_first());
        assert forall|i: int| 0 <= i < a.len() implies a[i] == b[i] by {
            if i > 0 {
                assert(a.drop_first()[i - 1] == b.drop_first()[i - 1]);
            }
        }
        assert(a.drop_first().len() == b.drop_first().len());
        assert(a =~= b);
    } else {
        if a.len() > 0 {
            assert((escaped_char(a[0]) + escaped(a.drop_first())).len() > 0);
        }
        if b.len() > 0 {
            assert((escaped_char(b[0]) + escaped(b.drop_first())).len() > 0);
        }
        assert(a =~= b);
    }
}

} // verus!
