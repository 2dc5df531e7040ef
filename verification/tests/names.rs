use emmylua_doc_html::groups::group_key;
use emmylua_doc_html::names::{split_type_name, type_kind};
use emmylua_doc_html::render::html_escape;
use emmylua_doc_html::text::{decimal, initial_of, not_after, split_dots};

#[test]
fn display_names_split_into_kind_and_name() {
    assert_eq!(split_type_name("class lsp.CodeActionKind"), ("class", "lsp.CodeActionKind"));
    assert_eq!(split_type_name("enum Color"), ("enum", "Color"));
    assert_eq!(split_type_name("alias class Odd"), ("alias", "class Odd"));
    assert_eq!(split_type_name("classless"), ("class", "classless"));
    assert_eq!(split_type_name("class "), ("class", ""));
    assert_eq!(split_type_name(""), ("class", ""));
}

#[test]
fn kinds_are_read_off_display_names() {
    assert_eq!(type_kind("class A"), "class");
    assert_eq!(type_kind("enum A"), "enum");
    assert_eq!(type_kind("alias A"), "alias");
    assert_eq!(type_kind("enumerate"), "class");
    assert_eq!(type_kind(""), "class");
}

#[test]
fn splitting_undoes_building() {
    for kind in ["class", "enum", "alias"] {
        for name in ["A", "a.b", "enum B", "", "\u{e9}t\u{e9}"] {
            let whole = format!("{} {}", kind, name);
            assert_eq!(split_type_name(&whole), (kind, name));
        }
    }
}

#[test]
fn group_letters_come_from_the_bare_name() {
    assert_eq!(group_key("class foo"), "F");
    assert_eq!(group_key("enum Zed"), "Z");
    assert_eq!(group_key("alias _x"), "#");
    assert_eq!(group_key("utils"), "U");
    assert_eq!(group_key("class "), "#");
    assert_eq!(group_key(""), "#");
    assert_eq!(group_key("3d"), "#");
    assert_eq!(group_key("\u{e9}t\u{e9}"), "#");
}

#[test]
fn markup_is_escaped() {
    assert_eq!(html_escape("Map<K, \"V\"> & co"), "Map&lt;K, &quot;V&quot;&gt; &amp; co");
    assert_eq!(html_escape("&lt;"), "&amp;lt;");
    assert_eq!(html_escape("plain \u{e9}"), "plain \u{e9}");
    assert_eq!(html_escape(""), "");
}

#[test]
fn escaped_text_tells_apart() {
    let texts = ["<", "&lt;", "&amp;lt;", "", "&", "\""];
    for a in texts {
        for b in texts {
            assert_eq!(html_escape(a) == html_escape(b), a == b);
        }
    }
}

#[test]
fn initials_are_upper_case() {
    assert_eq!(initial_of("class", "?"), "C");
    assert_eq!(initial_of("Enum", "?"), "E");
    assert_eq!(initial_of("", "?"), "?");
    assert_eq!(initial_of("\u{e9}", "?"), "\u{e9}");
}

#[test]
fn counts_are_decimal() {
    assert_eq!(decimal(0), "0");
    assert_eq!(decimal(7), "7");
    assert_eq!(decimal(1024), "1024");
    assert_eq!(decimal(usize::MAX), usize::MAX.to_string());
}

#[test]
fn names_split_at_dots() {
    assert_eq!(split_dots("a.b.c"), vec!["a", "b", "c"]);
    assert_eq!(split_dots("a..b"), vec!["a", "", "b"]);
    assert_eq!(split_dots("."), vec!["", ""]);
    assert_eq!(split_dots(""), vec![""]);
}

#[test]
fn texts_are_ordered_as_strings_are() {
    let texts = ["", "A", "B", "a", "a.b", "ab", "\u{e9}", "\u{10000}", "\u{ffff}"];
    for a in texts {
        for b in texts {
            assert_eq!(not_after(a, b), a <= b);
        }
    }
}
