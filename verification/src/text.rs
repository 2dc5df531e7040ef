//! Text as sequences of characters: order, letter case, decimal numbers and
//! splitting at dots.

use vstd::prelude::*;

verus! {

/// `String::push` appends the given character to the end of the string.
pub assume_specification[ String::push ](s: &mut String, c: char)
    ensures
        final(s)@ == old(s)@.push(c),
;

/// Lexicographic order by code point: the order of Rust strings.
pub open spec fn text_le(a: Seq<char>, b: Seq<char>) -> bool
    decreases a.len(),
{
    if a.len() == 0 {
        true
    } else if b.len() == 0 {
        false
    } else if a[0] != b[0] {
        a[0] < b[0]
    } else {
        text_le(a.drop_first(), b.drop_first())
    }
}

/// The characters of `s`.
pub fn to_chars(s: &str) -> (chars: Vec<char>)
    ensures
        chars@ == s@,
{
    let mut chars: Vec<char> = Vec::new();
    for c in it: s.chars()
        invariant
            it.seq() == s@,
            chars@ == s@.take(it.index()),
    {
        chars.push(c);
    }
    chars
}

/// Whether `a` and `b` hold the same characters.
pub fn same_text(a: &str, b: &str) -> (same: bool)
    ensures
        same == (a@ == b@),
{
    let x = to_chars(a);
    let y = to_chars(b);
    if x.len() != y.len() {
        return false;
    }
    let mut i: usize = 0;
    while i < x.len()
        invariant
            i <= x.len(),
            x.len() == y.len(),
            x@.take(i as int) == y@.take(i as int),
            x@ == a@,
            y@ == b@,
        decreases x.len() - i,
    {
        if x[i] != y[i] {
            return false;
        }
        proof {
            assert(x@.take(i + 1) == x@.take(i as int).push(x@[i as int]));
            assert(y@.take(i + 1) == y@.take(i as int).push(y@[i as int]));
        }
        i = i + 1;
    }
    assert(x@.take(i as int) == x@ && y@.take(i as int) == y@);
    true
}

/// Whether `a` comes before `b` in the order of text, or equals it.
pub fn not_after(a: &str, b: &str) -> (le: bool)
    ensures
        le == text_le(a@, b@),
{
    let x = to_chars(a);
    let y = to_chars(b);
    let mut i: usize = 0;
    assert(x@.skip(0) == x@ && y@.skip(0) == y@);
    while i < x.len()
        invariant
            i <= x.len(),
            i <= y.len(),
            x@ == a@,
            y@ == b@,
            text_le(a@, b@) == text_le(x@.skip(i as int), y@.skip(i as int)),
        decreases x.len() - i,
    {
        if i == y.len() {
            return false;
        }
        if x[i] != y[i] {
            return x[i] < y[i];
        }
        proof {
            assert(x@.skip(i as int).drop_first() == x@.skip(i + 1));
            assert(y@.skip(i as int).drop_first() == y@.skip(i + 1));
        }
        i = i + 1;
    }
    true
}

/// Whether `s` begins with `prefix`.
pub fn has_prefix(s: &str, prefix: &str) -> (yes: bool)
    ensures
        yes == prefix@.is_prefix_of(s@),
{
    let n: usize = prefix.unicode_len();
    if n > s.unicode_len() {
        return false;
    }
    same_text(s.substring_char(0, n), prefix)
}

/// What follows the first `n` characters of `s`.
pub fn after(s: &str, n: usize) -> (rest: &str)
    requires
        n <= s@.len(),
    ensures
        rest@ == s@.skip(n as int),
{
    s.substring_char(n, s.unicode_len())
}

/// The upper-case form of an ASCII letter; any other character as it is.
pub open spec fn upper(c: char) -> char {
    if 'a' <= c <= 'z' {
        (c as int - 32) as char
    } else {
        c
    }
}

/// Whether `c` is an ASCII letter.
pub open spec fn is_letter(c: char) -> bool {
    ('a' <= c <= 'z') || ('A' <= c <= 'Z')
}

/// Computes `upper`.
pub fn to_upper(c: char) -> (u: char)
    ensures
        u == upper(c),
{
    if 'a' <= c && c <= 'z' {
        (c as u8 - 32) as char
    } else {
        c
    }
}

/// The first character of `s` in upper case, or `default` where `s` is empty.
pub open spec fn initial(s: Seq<char>, default: Seq<char>) -> Seq<char> {
    if s.len() == 0 {
        default
    } else {
        seq![upper(s[0])]
    }
}

/// Computes `initial`.
pub fn initial_of(s: &str, default: &str) -> (letter: String)
    ensures
        letter@ == initial(s@, default@),
{
    if s.is_empty() {
        default.to_string()
    } else {
        let mut letter: String = String::new();
        letter.push(to_upper(s.get_char(0)));
        letter
    }
}

/// The decimal digits of `n`, most significant first, without leading zeros.
pub open spec fn digits(n: nat) -> Seq<char>
    decreases n,
{
    let last = ('0' as int + n % 10) as char;
    if n < 10 {
        seq![last]
    } else {
        digits(n / 10).push(last)
    }
}

/// `n` in decimal.
pub fn decimal(n: usize) -> (s: String)
    ensures
        s@ == digits(n as nat),
    decreases n,
{
    let last: char = (48u8 + (n % 10) as u8) as char;
    let mut s: String = if n < 10 { String::new() } else { decimal(n / 10) };
    s.push(last);
    s
}

/// The parts of `s` between its dots. There is always one more part than there
/// are dots.
pub open spec fn dot_parts(s: Seq<char>) -> Seq<Seq<char>>
    decreases s.len(),
{
    if s.len() == 0 {
        seq![Seq::<char>::empty()]
    } else {
        let parts = dot_parts(s.drop_last());
        if s.last() == '.' {
            parts.push(Seq::<char>::empty())
        } else {
            parts.update(parts.len() - 1, parts.last().push(s.last()))
        }
    }
}

/// The parts put together again, with a dot between each two.
pub open spec fn dot_join(parts: Seq<Seq<char>>) -> Seq<char>
    decreases parts.len(),
{
    if parts.len() == 0 {
        Seq::empty()
    } else if parts.len() == 1 {
        parts[0]
    } else {
        dot_join(parts.drop_last()).push('.') + parts.last()
    }
}

/// The views of the pieces of text in `v`.
pub open spec fn str_views(v: Seq<&str>) -> Seq<Seq<char>> {
    v.map_values(|s: &str| s@)
}

/// Splits `s` at its dots.
pub fn split_dots(s: &str) -> (parts: Vec<&str>)
    ensures
        str_views(parts@) == dot_parts(s@),
        parts@.len() > 0,
{
    let chars = to_chars(s);
    let mut parts: Vec<&str> = Vec::new();
    let mut start: usize = 0;
    let mut i: usize = 0;
    assert(s@.take(0) == Seq::<char>::empty());
    assert(str_views(parts@).push(s@.subrange(0, 0)) == seq![Seq::<char>::empty()]);
    while i < chars.len()
        invariant
            start <= i <= chars.len(),
            chars@ == s@,
            dot_parts(s@.take(i as int)) == str_views(parts@).push(s@.subrange(start as int, i as int)),
        decreases chars.len() - i,
    {
        let ghost seen = str_views(parts@);
        let ghost part = s@.subrange(start as int, i as int);
        assert(s@.take(i + 1).drop_last() == s@.take(i as int));
        assert(s@.take(i + 1).last() == s@[i as int]);
        if chars[i] == '.' {
            parts.push(s.substring_char(start, i));
            start = i + 1;
            proof {
                assert(str_views(parts@) == seen.push(part));
                assert(s@.subrange(start as int, i + 1) == Seq::<char>::empty());
            }
        } else {
            proof {
                assert(s@.subrange(start as int, i + 1) == part.push(s@[i as int]));
                assert(seen.push(part).update(seen.len() as int, part.push(s@[i as int]))
                    == seen.push(part.push(s@[i as int])));
            }
        }
        i = i + 1;
    }
    let ghost seen = str_views(parts@);
    parts.push(s.substring_char(start, i));
    proof {
        assert(s@.take(i as int) == s@);
        assert(str_views(parts@) == seen.push(s@.subrange(start as int, i as int)));
    }
    parts
}

/// Splitting loses nothing: the parts joined by dots give the text back, no part
/// holds a dot, and there is at least one part.
pub proof fn law_dot_parts_join(s: Seq<char>)
    ensures
        dot_parts(s).len() > 0,
        dot_join(dot_parts(s)) == s,
        forall|i: int| 0 <= i < dot_parts(s).len() ==> !(#[trigger] dot_parts(s)[i]).contains('.'),
    decreases s.len(),
{
    if s.len() == 0 {
        assert(dot_join(dot_parts(s)) == s);
    } else {
        let parts = dot_parts(s.drop_last());
        law_dot_parts_join(s.drop_last());
        assert(s == s.drop_last().push(s.last()));
        if s.last() == '.' {
            let all = parts.push(Seq::<char>::empty());
            assert(all.drop_last() == parts);
            assert(dot_join(all) == s);
        } else {
            let last = parts.last().push(s.last());
            let all = parts.update(parts.len() - 1, last);
            assert(all.drop_last() == parts.drop_last());
            assert(dot_join(all) == s);
            assert(!last.contains('.')) by {
                if last.contains('.') {
                    let k = choose|k: int| 0 <= k < last.len() && last[k] == '.';
                    assert(parts.last()[k] == '.');
                }
            }
        }
    }
}

/// The order of text is total: of any two pieces of text one comes first.
pub proof fn law_text_le_total(a: Seq<char>, b: Seq<char>)
    ensures
        text_le(a, b) || text_le(b, a),
    decreases a.len(),
{
    if a.len() > 0 && b.len() > 0 && a[0] == b[0] {
        law_text_le_total(a.drop_first(), b.drop_first());
    }
}

/// The order of text is transitive.
pub proof fn law_text_le_transitive(a: Seq<char>, b: Seq<char>, c: Seq<char>)
    requires
        text_le(a, b),
        text_le(b, c),
    ensures
        text_le(a, c),
    decreases a.len(),
{
    if a.len() > 0 && b.len() > 0 && c.len() > 0 && a[0] == b[0] && b[0] == c[0] {
        law_text_le_transitive(a.drop_first(), b.drop_first(), c.drop_first());
    }
}

/// Two pieces of text that come before each other are the same.
pub proof fn law_text_le_antisymmetric(a: Seq<char>, b: Seq<char>)
    requires
        text_le(a, b),
        text_le(b, a),
    ensures
        a == b,
    decreases a.len(),
{
    if a.len() > 0 && b.len() > 0 {
        assert(a[0] == b[0]);
        law_text_le_antisymmetric(a.drop_first(), b.drop_first());
        assert(a.len() == b.len());
        assert forall|i: int| 0 <= i < a.len() implies a[i] == b[i] by {
            if i > 0 {
                assert(a.drop_first()[i - 1] == b.drop_first()[i - 1]);
            }
        }
        assert(a =~= b);
    }
}

/// Whether both pieces of text are at least `k` characters long and agree in those.
pub open spec fn agree(a: Seq<char>, b: Seq<char>, k: int) -> bool {
    0 <= k <= a.len() && k <= b.len() && forall|i: int| 0 <= i < k ==> a[i] == b[i]
}

/// One piece of text comes before another, or equals it, if and only if it ends
/// where the two still agree, or has the lower code point where they first differ.
pub proof fn law_text_le_is_lexicographic(a: Seq<char>, b: Seq<char>)
    ensures
        text_le(a, b) <==> exists|k: int| #[trigger]
            agree(a, b, k) && (k == a.len() || (k < b.len() && (a[k] as int) < (b[k] as int))),
    decreases a.len(),
{
    let (x, y) = (a.drop_first(), b.drop_first());
    if a.len() == 0 {
        assert(agree(a, b, 0));
    } else if b.len() > 0 && a[0] == b[0] {
        law_text_le_is_lexicographic(x, y);
        if text_le(x, y) {
            let k = choose|k: int| #[trigger]
                agree(x, y, k) && (k == x.len() || (k < y.len() && (x[k] as int) < (y[k] as int)));
            assert forall|i: int| 0 <= i < k + 1 implies a[i] == b[i] by {
                if i > 0 {
                    assert(x[i - 1] == y[i - 1]);
                }
            }
            assert(agree(a, b, k + 1));
        }
        if exists|k: int| #[trigger]
            agree(a, b, k) && (k == a.len() || (k < b.len() && (a[k] as int) < (b[k] as int))) {
            let k = choose|k: int| #[trigger]
                agree(a, b, k) && (k == a.len() || (k < b.len() && (a[k] as int) < (b[k] as int)));
            assert(agree(x, y, k - 1));
        }
    } else if b.len() > 0 {
        assert(agree(a, b, 0));
    }
}

/// Whether `u` is `c` with an ASCII letter in upper case.
pub open spec fn is_upper_of(u: char, c: char) -> bool {
    if 97 <= c as int <= 122 {
        u as int == c as int - 32
    } else {
        u == c
    }
}

/// The initial of a piece of text is its first character with an ASCII letter in
/// upper case. A text without characters has the default for its initial.
pub proof fn law_initial_is_the_first_letter(s: Seq<char>, default: Seq<char>)
    ensures
        s.len() == 0 ==> initial(s, default) == default,
        s.len() > 0 ==> initial(s, default).len() == 1 && is_upper_of(initial(s, default)[0], s[0]),
{
}

/// The number that decimal digits stand for.
pub open spec fn number_of(s: Seq<char>) -> int
    decreases s.len(),
{
    if s.len() == 0 {
        0
    } else {
        10 * number_of(s.drop_last()) + (s.last() as int - 48)
    }
}

/// The digits of a number stand for that number. They are decimal digits, and the
/// first is a zero for zero only.
pub proof fn law_digits_stand_for_the_number(n: nat)
    ensures
        number_of(digits(n)) == n,
        digits(n).len() > 0,
        forall|i: int| 0 <= i < digits(n).len() ==> 48 <= #[trigger] digits(n)[i] as int <= 57,
        n > 0 ==> digits(n)[0] as int != 48,
        n == 0 ==> digits(n).len() == 1,
    decreases n,
{
    let s = digits(n);
    assert(n % 10 < 10);
    if n < 10 {
        assert(s.drop_last() =~= Seq::empty());
        assert(number_of(s.drop_last()) == 0);
    } else {
        law_digits_stand_for_the_number(n / 10);
        assert(s.drop_last() =~= digits(n / 10));
        assert forall|i: int| 0 <= i < s.len() implies 48 <= #[trigger] s[i] as int <= 57 by {
            if i < s.len() - 1 {
                assert(s[i] == digits(n / 10)[i]);
            }
        }
        assert(s[0] == digits(n / 10)[0]);
    }
}

} // verus!
