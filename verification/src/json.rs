//! JSON text, by way of `serde_json`.

use vstd::prelude::*;
use crate::text::text_le;

verus! {

/// A digit of a hexadecimal number.
pub open spec fn hex_digit(n: int) -> char {
    if n < 10 {
        (48 + n) as char
    } else {
        (87 + n) as char
    }
}

/// A character inside a JSON string.
pub open spec fn json_char(c: char) -> Seq<char> {
    let code = c as int;
    if c == '"' {
        seq!['\\', '"']
    } else if c == '\\' {
        seq!['\\', '\\']
    } else if code == 8 {
        seq!['\\', 'b']
    } else if code == 9 {
        seq!['\\', 't']
    } else if code == 10 {
        seq!['\\', 'n']
    } else if code == 12 {
        seq!['\\', 'f']
    } else if code == 13 {
        seq!['\\', 'r']
    } else if code < 32 {
        seq!['\\', 'u', '0', '0', hex_digit(code / 16), hex_digit(code % 16)]
    } else {
        seq![c]
    }
}

/// What stands between the quotes of a JSON string.
pub open spec fn json_chars(s: Seq<char>) -> Seq<char>
    decreases s.len(),
{
    if s.len() == 0 {
        Seq::empty()
    } else {
        json_char(s[0]) + json_chars(s.drop_first())
    }
}

/// A JSON string.
pub open spec fn json_string(s: Seq<char>) -> Seq<char> {
    seq!['"'] + json_chars(s) + seq!['"']
}

/// Pieces of text with a comma between each two.
pub open spec fn comma_list(parts: Seq<Seq<char>>) -> Seq<char>
    decreases parts.len(),
{
    if parts.len() == 0 {
        Seq::empty()
    } else if parts.len() == 1 {
        parts[0]
    } else {
        parts[0] + seq![','] + comma_list(parts.drop_first())
    }
}

/// A member of a JSON object: its key and its value, both strings.
pub open spec fn json_member(member: (Seq<char>, Seq<char>)) -> Seq<char> {
    json_string(member.0) + seq![':'] + json_string(member.1)
}

/// The text of a member, as a function.
pub open spec fn member_json() -> spec_fn((Seq<char>, Seq<char>)) -> Seq<char> {
    |member: (Seq<char>, Seq<char>)| json_member(member)
}

/// A JSON object without white space.
pub open spec fn json_object(members: Seq<(Seq<char>, Seq<char>)>) -> Seq<char> {
    seq!['{'] + comma_list(members.map_values(member_json())) + seq!['}']
}

/// The text of an object, as a function.
pub open spec fn object_json() -> spec_fn(Seq<(Seq<char>, Seq<char>)>) -> Seq<char> {
    |members: Seq<(Seq<char>, Seq<char>)>| json_object(members)
}

/// A JSON array of objects without white space.
pub open spec fn json_array(rows: Seq<Seq<(Seq<char>, Seq<char>)>>) -> Seq<char> {
    seq!['['] + comma_list(rows.map_values(object_json())) + seq![']']
}

/// The views of the members of an object.
pub open spec fn member_texts(row: Vec<(String, String)>) -> Seq<(Seq<char>, Seq<char>)> {
    row@.map_values(|m: (String, String)| (m.0@, m.1@))
}

/// The views of the members of objects.
pub open spec fn row_texts(rows: Seq<Vec<(String, String)>>) -> Seq<Seq<(Seq<char>, Seq<char>)>> {
    rows.map_values(|row: Vec<(String, String)>| member_texts(row))
}

/// Whether the keys of an object ascend and none occurs twice.
pub open spec fn keys_ascend(members: Seq<(Seq<char>, Seq<char>)>) -> bool {
    forall|i: int, j: int|
        0 <= i < j < members.len() ==> text_le((#[trigger] members[i]).0, (#[trigger] members[j]).0) && members[i].0
            != members[j].0
}

/// The error of `serde_json`.
#[verifier::external_type_specification]
#[verifier::external_body]
pub struct ExJsonError(serde_json::Error);

/// Calls `serde_json::to_string` on a list of values, each an object whose
/// members are strings: `Value` collects the members of a row into one. It writes
/// the array without white space and the members of an object in the order of
/// their keys, and it escapes in a string quotes, backslashes and the characters
/// before the space. It fails on no such list.
#[verifier::external_body]
pub(crate) fn to_json(rows: &Vec<Vec<(String, String)>>) -> (text: Result<String, serde_json::Error>)
    requires
        forall|i: int| 0 <= i < rows@.len() ==> keys_ascend(#[trigger] row_texts(rows@)[i]),
    ensures
        text is Ok,
        text->Ok_0@ == json_array(row_texts(rows@)),
{
    let values: Vec<serde_json::Value> = rows.iter().map(|row| row.iter().cloned().collect()).collect();
    serde_json::to_string(&values)
}

proof fn lemma_char_read_back(c: char, d: char, x: Seq<char>, y: Seq<char>)
    requires
        json_char(c) + x == json_char(d) + y,
    ensures
        c == d,
        x == y,
{
    let a = json_char(c) + x;
    let b = json_char(d) + y;
    assert(a[0] == json_char(c)[0] && b[0] == json_char(d)[0]);
    if json_char(c)[0] == '\\' {
        assert(json_char(c).len() > 1 && json_char(d).len() > 1);
        assert(a[1] == json_char(c)[1] && b[1] == json_char(d)[1]);
        if json_char(c)[1] == 'u' {
            assert(a[4] == json_char(c)[4] && b[4] == json_char(d)[4]);
            assert(a[5] == json_char(c)[5] && b[5] == json_char(d)[5]);
            assert(c as int == 16 * (c as int / 16) + c as int % 16);
            assert(d as int == 16 * (d as int / 16) + d as int % 16);
        }
    }
    assert(c == d);
    assert(x =~= a.skip(json_char(c).len() as int));
    assert(y =~= b.skip(json_char(d).len() as int));
}

proof fn lemma_chars_read_back(s: Seq<char>, t: Seq<char>, x: Seq<char>, y: Seq<char>)
    requires
        json_chars(s) + seq!['"'] + x == json_chars(t) + seq!['"'] + y,
    ensures
        s == t,
        x == y,
    decreases s.len(),
{
    let a = json_chars(s) + seq!['"'] + x;
    let b = json_chars(t) + seq!['"'] + y;
    if s.len() > 0 {
        assert(a =~= json_char(s[0]) + (json_chars(s.drop_first()) + seq!['"'] + x));
        assert(a[0] == json_char(s[0])[0]);
    } else {
        assert(a[0] == '"');
    }
    if t.len() > 0 {
        assert(b =~= json_char(t[0]) + (json_chars(t.drop_first()) + seq!['"'] + y));
        assert(b[0] == json_char(t[0])[0]);
    } else {
        assert(b[0] == '"');
    }
    if s.len() > 0 && t.len() > 0 {
        lemma_char_read_back(
            s[0],
            t[0],
            json_chars(s.drop_first()) + seq!['"'] + x,
            json_chars(t.drop_first()) + seq!['"'] + y,
        );
        lemma_chars_read_back(s.drop_first(), t.drop_first(), x, y);
        assert(s =~= seq![s[0]] + s.drop_first());
        assert(t =~= seq![t[0]] + t.drop_first());
    } else {
        assert(x =~= a.skip(1));
        assert(y =~= b.skip(1));
        assert(s =~= t);
    }
}

proof fn lemma_string_read_back(s: Seq<char>, t: Seq<char>, x: Seq<char>, y: Seq<char>)
    requires
        json_string(s) + x == json_string(t) + y,
    ensures
        s == t,
        x == y,
{
    let a = json_string(s) + x;
    let b = json_string(t) + y;
    assert(a.skip(1) =~= json_chars(s) + seq!['"'] + x);
    assert(b.skip(1) =~= json_chars(t) + seq!['"'] + y);
    lemma_chars_read_back(s, t, x, y);
}

proof fn lemma_member_read_back(
    m: (Seq<char>, Seq<char>),
    n: (Seq<char>, Seq<char>),
    x: Seq<char>,
    y: Seq<char>,
)
    requires
        json_member(m) + x == json_member(n) + y,
    ensures
        m == n,
        x == y,
{
    let a = json_string(m.1) + x;
    let b = json_string(n.1) + y;
    assert(json_member(m) + x =~= json_string(m.0) + (seq![':'] + a));
    assert(json_member(n) + y =~= json_string(n.0) + (seq![':'] + b));
    lemma_string_read_back(m.0, n.0, seq![':'] + a, seq![':'] + b);
    assert((seq![':'] + a).skip(1) =~= a);
    assert((seq![':'] + b).skip(1) =~= b);
    lemma_string_read_back(m.1, n.1, x, y);
}

proof fn lemma_members_read_back(
    p: Seq<(Seq<char>, Seq<char>)>,
    q: Seq<(Seq<char>, Seq<char>)>,
    x: Seq<char>,
    y: Seq<char>,
)
    requires
        comma_list(p.map_values(member_json())) + seq!['}'] + x == comma_list(q.map_values(member_json())) + seq!['}']
            + y,
    ensures
        p == q,
        x == y,
    decreases p.len(),
{
    let f = member_json();
    let a = comma_list(p.map_values(f)) + seq!['}'] + x;
    let b = comma_list(q.map_values(f)) + seq!['}'] + y;
    let rest_a = lemma_list_starts(p, f, '}', x);
    let rest_b = lemma_list_starts(q, f, '}', y);
    if p.len() > 0 {
        assert(a[0] == json_member(p[0])[0] && a[0] == '"');
    } else {
        assert(a[0] == '}');
    }
    if q.len() > 0 {
        assert(b[0] == json_member(q[0])[0] && b[0] == '"');
    } else {
        assert(b[0] == '}');
    }
    if p.len() > 0 && q.len() > 0 {
        lemma_member_read_back(p[0], q[0], rest_a, rest_b);
        assert(rest_a[0] == rest_b[0]);
        if p.len() > 1 {
            assert(rest_a.skip(1) =~= comma_list(p.drop_first().map_values(f)) + seq!['}'] + x);
            assert(rest_b.skip(1) =~= comma_list(q.drop_first().map_values(f)) + seq!['}'] + y);
            lemma_members_read_back(p.drop_first(), q.drop_first(), x, y);
        } else {
            assert(rest_a.skip(1) =~= x);
            assert(rest_b.skip(1) =~= y);
            assert(p.drop_first() =~= q.drop_first());
        }
        assert(p =~= seq![p[0]] + p.drop_first());
        assert(q =~= seq![q[0]] + q.drop_first());
    } else {
        assert(x =~= a.skip(1));
        assert(y =~= b.skip(1));
        assert(p =~= q);
    }
}

/// A closed list begins with its first part; what follows begins with a comma,
/// or with what closes the list.
proof fn lemma_list_starts<T>(parts: Seq<T>, f: spec_fn(T) -> Seq<char>, close: char, x: Seq<char>) -> (rest: Seq<char>)
    ensures
        parts.len() > 0 ==> comma_list(parts.map_values(f)) + seq![close] + x == f(parts[0]) + rest,
        parts.len() == 1 ==> rest == seq![close] + x,
        parts.len() > 1 ==> rest == seq![','] + (comma_list(parts.drop_first().map_values(f)) + seq![close] + x),
{
    let texts = parts.map_values(f);
    let whole = comma_list(texts) + seq![close] + x;
    if parts.len() == 1 {
        assert(whole =~= f(parts[0]) + (seq![close] + x));
        seq![close] + x
    } else if parts.len() > 1 {
        assert(texts.drop_first() =~= parts.drop_first().map_values(f));
        let rest = seq![','] + (comma_list(texts.drop_first()) + seq![close] + x);
        assert(whole =~= f(parts[0]) + rest);
        rest
    } else {
        x
    }
}

proof fn lemma_object_read_back(
    p: Seq<(Seq<char>, Seq<char>)>,
    q: Seq<(Seq<char>, Seq<char>)>,
    x: Seq<char>,
    y: Seq<char>,
)
    requires
        json_object(p) + x == json_object(q) + y,
    ensures
        p == q,
        x == y,
{
    assert((json_object(p) + x).skip(1) =~= comma_list(p.map_values(member_json())) + seq!['}'] + x);
    assert((json_object(q) + y).skip(1) =~= comma_list(q.map_values(member_json())) + seq!['}'] + y);
    lemma_members_read_back(p, q, x, y);
}

proof fn lemma_rows_read_back(p: Seq<Seq<(Seq<char>, Seq<char>)>>, q: Seq<Seq<(Seq<char>, Seq<char>)>>)
    requires
        comma_list(p.map_values(object_json())) + seq![']'] == comma_list(q.map_values(object_json())) + seq![']'],
    ensures
        p == q,
    decreases p.len(),
{
    let f = object_json();
    let none = Seq::<char>::empty();
    let a = comma_list(p.map_values(f)) + seq![']'] + none;
    let b = comma_list(q.map_values(f)) + seq![']'] + none;
    assert(a =~= comma_list(p.map_values(f)) + seq![']']);
    assert(b =~= comma_list(q.map_values(f)) + seq![']']);
    let rest_a = lemma_list_starts(p, f, ']', none);
    let rest_b = lemma_list_starts(q, f, ']', none);
    if p.len() > 0 {
        assert(a[0] == json_object(p[0])[0] && a[0] == '{');
    } else {
        assert(a[0] == ']');
    }
    if q.len() > 0 {
        assert(b[0] == json_object(q[0])[0] && b[0] == '{');
    } else {
        assert(b[0] == ']');
    }
    if p.len() > 0 && q.len() > 0 {
        lemma_object_read_back(p[0], q[0], rest_a, rest_b);
        assert(rest_a[0] == rest_b[0]);
        if p.len() > 1 {
            assert(rest_a.skip(1) =~= comma_list(p.drop_first().map_values(f)) + seq![']']);
            assert(rest_b.skip(1) =~= comma_list(q.drop_first().map_values(f)) + seq![']']);
            lemma_rows_read_back(p.drop_first(), q.drop_first());
        } else {
            assert(p.drop_first() =~= q.drop_first());
        }
        assert(p =~= seq![p[0]] + p.drop_first());
        assert(q =~= seq![q[0]] + q.drop_first());
    } else {
        assert(p =~= q);
    }
}

/// The text of an array can be read back in one way only: different objects give
/// different texts, whatever characters they hold.
pub proof fn law_json_array_tells_apart(
    p: Seq<Seq<(Seq<char>, Seq<char>)>>,
    q: Seq<Seq<(Seq<char>, Seq<char>)>>,
)
    requires
        json_array(p) == json_array(q),
    ensures
        p == q,
{
    assert(json_array(p).skip(1) =~= comma_list(p.map_values(object_json())) + seq![']']);
    assert(json_array(q).skip(1) =~= comma_list(q.map_values(object_json())) + seq![']']);
    lemma_rows_read_back(p, q);
}

} // verus!
