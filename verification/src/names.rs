//! The display names of types: a kind, a space and the full name.

use vstd::prelude::*;
use crate::text::{after, has_prefix};

verus! {

/// The kind that the display name of a type begins with; `class` where it
/// begins with none.
pub open spec fn kind_of(name: Seq<char>) -> Seq<char> {
    if "class "@.is_prefix_of(name) {
        "class"@
    } else if "enum "@.is_prefix_of(name) {
        "enum"@
    } else if "alias "@.is_prefix_of(name) {
        "alias"@
    } else {
        "class"@
    }
}

/// The display name of a type without its kind; the whole of it where it begins
/// with none.
pub open spec fn bare_name(name: Seq<char>) -> Seq<char> {
    if "class "@.is_prefix_of(name) {
        name.skip("class "@.len() as int)
    } else if "enum "@.is_prefix_of(name) {
        name.skip("enum "@.len() as int)
    } else if "alias "@.is_prefix_of(name) {
        name.skip("alias "@.len() as int)
    } else {
        name
    }
}

/// The display name of the type `name` of kind `kind`.
pub open spec fn display_name(kind: Seq<char>, name: Seq<char>) -> Seq<char> {
    kind + " "@ + name
}

/// Splits a display name into the kind and the full name.
pub fn split_type_name(name: &str) -> (parts: (&str, &str))
    ensures
        parts.0@ == kind_of(name@),
        parts.1@ == bare_name(name@),
{
    proof {
        reveal_strlit("class ");
        reveal_strlit("enum ");
        reveal_strlit("alias ");
    }
    if has_prefix(name, "class ") {
        ("class", after(name, 6))
    } else if has_prefix(name, "enum ") {
        ("enum", after(name, 5))
    } else if has_prefix(name, "alias ") {
        ("alias", after(name, 6))
    } else {
        ("class", name)
    }
}

/// The kind of a type, read off its display name.
pub fn type_kind(name: &str) -> (kind: &str)
    ensures
        kind@ == kind_of(name@),
{
    if has_prefix(name, "enum ") {
        proof {
            lemma_prefixes_differ(name@);
        }
        "enum"
    } else if has_prefix(name, "alias ") {
        proof {
            lemma_prefixes_differ(name@);
        }
        "alias"
    } else {
        "class"
    }
}

proof fn lemma_prefixes_differ(name: Seq<char>)
    ensures
        "class "@.is_prefix_of(name) ==> !"enum "@.is_prefix_of(name) && !"alias "@.is_prefix_of(name),
        "enum "@.is_prefix_of(name) ==> !"alias "@.is_prefix_of(name),
{
    reveal_strlit("class ");
    reveal_strlit("enum ");
    reveal_strlit("alias ");
    if name.len() > 0 {
        if "class "@.is_prefix_of(name) {
            assert("class "@[0] == name[0]);
        }
        if "enum "@.is_prefix_of(name) {
            assert("enum "@[0] == name[0]);
        }
        if "alias "@.is_prefix_of(name) {
            assert("alias "@[0] == name[0]);
        }
    }
}

/// Splitting undoes building: the display name of a class, an enum or an alias
/// gives back its kind and its full name, whatever the name holds.
pub proof fn law_display_name_splits(kind: Seq<char>, name: Seq<char>)
    requires
        kind == "class"@ || kind == "enum"@ || kind == "alias"@,
    ensures
        kind_of(display_name(kind, name)) == kind,
        bare_name(display_name(kind, name)) == name,
{
    reveal_strlit("class");
    reveal_strlit("enum");
    reveal_strlit("alias");
    reveal_strlit(" ");
    reveal_strlit("class ");
    reveal_strlit("enum ");
    reveal_strlit("alias ");
    let whole = display_name(kind, name);
    lemma_prefixes_differ(whole);
    if kind == "class"@ {
        assert("class "@ == kind + " "@);
        assert(whole.subrange(0, 6) == "class "@);
        assert(whole.skip(6) == name);
    } else if kind == "enum"@ {
        assert("enum "@ == kind + " "@);
        assert(whole.subrange(0, 5) == "enum "@);
        assert(whole.skip(5) == name);
    } else {
        assert("alias "@ == kind + " "@);
        assert(whole.subrange(0, 6) == "alias "@);
        assert(whole.skip(6) == name);
    }
}

/// Whether `rest` is what `name` says after its kind; the whole of it where it
/// begins with no kind.
pub open spec fn names_after_kind(name: Seq<char>, rest: Seq<char>) -> bool {
    ||| name == "class "@ + rest
    ||| name == "enum "@ + rest
    ||| name == "alias "@ + rest
    ||| rest == name && forall|x: Seq<char>|
        name != #[trigger] ("class "@ + x) && name != "enum "@ + x && name != "alias "@ + x
}

/// A name that begins with a kind and a space splits there. Any other name is a
/// class, as it stands.
pub proof fn law_names_split_after_the_kind(name: Seq<char>, rest: Seq<char>)
    requires
        names_after_kind(name, rest),
    ensures
        bare_name(name) == rest,
        name == "class "@ + rest ==> kind_of(name) == "class"@,
        name == "enum "@ + rest ==> kind_of(name) == "enum"@,
        name == "alias "@ + rest ==> kind_of(name) == "alias"@,
        rest == name ==> kind_of(name) == "class"@,
{
    reveal_strlit("class ");
    reveal_strlit("enum ");
    reveal_strlit("alias ");
    lemma_prefixes_differ(name);
    if name == "class "@ + rest {
        assert(name.subrange(0, 6) =~= "class "@);
        assert(name.skip(6) =~= rest);
    } else if name == "enum "@ + rest {
        assert(name.subrange(0, 5) =~= "enum "@);
        assert(name.skip(5) =~= rest);
    } else if name == "alias "@ + rest {
        assert(name.subrange(0, 6) =~= "alias "@);
        assert(name.skip(6) =~= rest);
    } else {
        if "class "@.is_prefix_of(name) {
            assert(name =~= "class "@ + name.skip(6));
        }
        if "enum "@.is_prefix_of(name) {
            let x = name.skip(5);
            assert(name =~= "enum "@ + x);
            assert(name != "class "@ + x);
        }
        if "alias "@.is_prefix_of(name) {
            let x = name.skip(6);
            assert(name =~= "alias "@ + x);
            assert(name != "class "@ + x);
        }
    }
}

/// A display name is the kind, a space and the name, and nothing else.
pub proof fn law_display_name_is_kind_and_name(kind: Seq<char>, name: Seq<char>)
    ensures
        display_name(kind, name).len() == kind.len() + 1 + name.len(),
        display_name(kind, name).take(kind.len() as int) == kind,
        display_name(kind, name)[kind.len() as int] == ' ',
        display_name(kind, name).skip(kind.len() as int + 1) == name,
{
    reveal_strlit(" ");
    assert(display_name(kind, name).take(kind.len() as int) =~= kind);
    assert(display_name(kind, name).skip(kind.len() as int + 1) =~= name);
}

} // verus!
