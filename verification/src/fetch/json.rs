//! Reading JSON documents (RFC 8259, with `serde_json`'s limits): the
//! grammar as spec functions, a verified reader that follows it, a rendering
//! of JSON values, and the proof that reading a rendered value gives the value
//! back.

use vstd::prelude::*;
use vstd::utf8::{encode_scalar, encode_utf8, is_scalar};
use crate::text::chars_of;
use crate::fetch::stream::utf8_text;

verus! {

// ---------------------------------------------------------------------------
// JSON values and their text
// ---------------------------------------------------------------------------

/// A JSON value. Numbers keep their text; objects keep their members in
/// order, duplicates included.
pub ghost enum Json {
    Null,
    Bool(bool),
    Number(Seq<char>),
    Str(Seq<char>),
    Array(Seq<Json>),
    Object(Seq<(Seq<char>, Json)>),
}

/// JSON white space.
pub open spec fn is_json_ws(c: char) -> bool {
    c == ' ' || c == '\n' || c == '\t' || c == '\r'
}

/// `s` without its leading JSON white space.
pub open spec fn skip_ws(s: Seq<char>) -> Seq<char>
    decreases s.len(),
{
    if s.len() > 0 && is_json_ws(s[0]) {
        skip_ws(s.drop_first())
    } else {
        s
    }
}

/// Whether `c` is an ASCII digit.
pub open spec fn is_ascii_digit(c: char) -> bool {
    '0' <= c && c <= '9'
}

/// The value of the hexadecimal digit `c` (either case).
pub open spec fn hex_value(c: char) -> Option<nat> {
    if '0' <= c && c <= '9' {
        Some(((c as u32) - ('0' as u32)) as nat)
    } else if 'a' <= c && c <= 'f' {
        Some(((c as u32) - ('a' as u32) + 10) as nat)
    } else if 'A' <= c && c <= 'F' {
        Some(((c as u32) - ('A' as u32) + 10) as nat)
    } else {
        None
    }
}

/// The number that the first four characters of `s` write in hexadecimal.
#[verifier::opaque]
pub open spec fn hex4(s: Seq<char>) -> Option<nat> {
    if s.len() >= 4 && hex_value(s[0]) is Some && hex_value(s[1]) is Some && hex_value(s[2]) is Some
        && hex_value(s[3]) is Some {
        Some(
            hex_value(s[0])->0 * 4096 + hex_value(s[1])->0 * 256 + hex_value(s[2])->0 * 16
                + hex_value(s[3])->0,
        )
    } else {
        None
    }
}

/// Reads the escape after a backslash in a string: the character it stands
/// for and the text after it. A `\u` escape of a UTF-16 high surrogate must be
/// followed by a `\u` escape of a low surrogate; lone surrogates are errors.
#[verifier::opaque]
pub open spec fn escape(s: Seq<char>) -> Option<(char, Seq<char>)> {
    if s.len() == 0 {
        None
    } else if s[0] == '"' {
        Some(('"', s.drop_first()))
    } else if s[0] == '\\' {
        Some(('\\', s.drop_first()))
    } else if s[0] == '/' {
        Some(('/', s.drop_first()))
    } else if s[0] == 'b' {
        Some(('\x08', s.drop_first()))
    } else if s[0] == 'f' {
        Some(('\x0c', s.drop_first()))
    } else if s[0] == 'n' {
        Some(('\n', s.drop_first()))
    } else if s[0] == 'r' {
        Some(('\r', s.drop_first()))
    } else if s[0] == 't' {
        Some(('\t', s.drop_first()))
    } else if s[0] == 'u' {
        match hex4(s.skip(1)) {
            None => None,
            Some(n) => if 0xDC00 <= n <= 0xDFFF {
                None
            } else if n < 0xD800 || n > 0xDBFF {
                Some(((n as u32) as char, s.skip(5)))
            } else {
                let t = s.skip(5);
                if t.len() >= 2 && t[0] == '\\' && t[1] == 'u' {
                    match hex4(t.skip(2)) {
                        Some(m) => if 0xDC00 <= m <= 0xDFFF {
                            Some(
                                (
                                    ((((n - 0xD800) * 1024 + (m - 0xDC00) + 0x10000) as nat) as u32) as char,
                                    t.skip(6),
                                ),
                            )
                        } else {
                            None
                        },
                        None => None,
                    }
                } else {
                    None
                }
            },
        }
    } else {
        None
    }
}

/// Reads the rest of a string after its opening quote: its characters and
/// the text after the closing quote. Control characters must be escaped.
pub open spec fn parse_str(s: Seq<char>) -> Option<(Seq<char>, Seq<char>)>
    decreases s.len(),
{
    if s.len() == 0 {
        None
    } else if s[0] == '"' {
        Some((Seq::empty(), s.drop_first()))
    } else if s[0] == '\\' {
        match escape(s.drop_first()) {
            None => None,
            Some((c, r)) => if r.len() < s.len() {
                match parse_str(r) {
                    Some((t, q)) => Some((seq![c] + t, q)),
                    None => None,
                }
            } else {
                None
            },
        }
    } else if (s[0] as u32) < 0x20 {
        None
    } else {
        match parse_str(s.drop_first()) {
            Some((t, q)) => Some((seq![s[0]] + t, q)),
            None => None,
        }
    }
}

/// The number of ASCII digits at the start of `s`.
pub open spec fn digits_len(s: Seq<char>) -> nat
    decreases s.len(),
{
    if s.len() > 0 && is_ascii_digit(s[0]) {
        1 + digits_len(s.drop_first())
    } else {
        0
    }
}

/// The length of the number at the start of `s`: an optional minus, an
/// integer part without leading zeros, an optional fraction and an optional
/// exponent.
#[verifier::opaque]
pub open spec fn number_len(s: Seq<char>) -> Option<nat> {
    let a: int = if s.len() > 0 && s[0] == '-' { 1 } else { 0 };
    if s.len() <= a || !is_ascii_digit(s[a]) {
        None
    } else if s[a] == '0' && s.len() > a + 1 && is_ascii_digit(s[a + 1]) {
        None
    } else {
        let b: int = if s[a] == '0' { a + 1 } else { a + digits_len(s.skip(a)) };
        if s.len() > b && s[b] == '.' && digits_len(s.skip(b + 1)) == 0 {
            None
        } else {
            let c: int = if s.len() > b && s[b] == '.' {
                b + 1 + digits_len(s.skip(b + 1))
            } else {
                b
            };
            if s.len() > c && (s[c] == 'e' || s[c] == 'E') {
                let e: int = if s.len() > c + 1 && (s[c + 1] == '+' || s[c + 1] == '-') {
                    c + 2
                } else {
                    c + 1
                };
                if digits_len(s.skip(e)) == 0 {
                    None
                } else {
                    Some((e + digits_len(s.skip(e))) as nat)
                }
            } else {
                Some(c as nat)
            }
        }
    }
}

/// The characters of `null`.
pub open spec fn null_text() -> Seq<char> {
    seq!['n', 'u', 'l', 'l']
}

/// The characters of `true`.
pub open spec fn true_text() -> Seq<char> {
    seq!['t', 'r', 'u', 'e']
}

/// The characters of `false`.
pub open spec fn false_text() -> Seq<char> {
    seq!['f', 'a', 'l', 's', 'e']
}

/// Reads one value after optional white space: the value and the text after
/// it. `rem` is the nesting budget: an array or object needs `rem > 1` and
/// gives its elements `rem - 1` (with `rem = 128` at the top, as `serde_json`).
pub open spec fn parse_value(s: Seq<char>, rem: nat) -> Option<(Json, Seq<char>)>
    decreases rem, 0nat, s.len(),
{
    let t = skip_ws(s);
    if t.len() == 0 {
        None
    } else if t[0] == 'n' {
        if t.len() >= 4 && t.take(4) == null_text() {
            Some((Json::Null, t.skip(4)))
        } else {
            None
        }
    } else if t[0] == 't' {
        if t.len() >= 4 && t.take(4) == true_text() {
            Some((Json::Bool(true), t.skip(4)))
        } else {
            None
        }
    } else if t[0] == 'f' {
        if t.len() >= 5 && t.take(5) == false_text() {
            Some((Json::Bool(false), t.skip(5)))
        } else {
            None
        }
    } else if t[0] == '"' {
        match parse_str(t.drop_first()) {
            Some((c, r)) => Some((Json::Str(c), r)),
            None => None,
        }
    } else if t[0] == '-' || is_ascii_digit(t[0]) {
        match number_len(t) {
            Some(n) => if n <= t.len() {
                Some((Json::Number(t.take(n as int)), t.skip(n as int)))
            } else {
                None
            },
            None => None,
        }
    } else if t[0] == '[' {
        if rem <= 1 {
            None
        } else {
            parse_array(t.drop_first(), (rem - 1) as nat)
        }
    } else if t[0] == '{' {
        if rem <= 1 {
            None
        } else {
            parse_object(t.drop_first(), (rem - 1) as nat)
        }
    } else {
        None
    }
}

/// Reads the rest of an array after its `[`.
pub open spec fn parse_array(s: Seq<char>, rem: nat) -> Option<(Json, Seq<char>)>
    decreases rem, 2nat, s.len(),
{
    let t = skip_ws(s);
    if t.len() > 0 && t[0] == ']' {
        Some((Json::Array(Seq::empty()), t.drop_first()))
    } else {
        parse_elements(t, rem, Seq::empty())
    }
}

/// Reads the elements of an array, `acc` being those already read, up to
/// and including the closing `]`.
pub open spec fn parse_elements(s: Seq<char>, rem: nat, acc: Seq<Json>) -> Option<(Json, Seq<char>)>
    decreases rem, 1nat, s.len(),
{
    match parse_value(s, rem) {
        None => None,
        Some((v, r)) => {
            let t = skip_ws(r);
            if t.len() == 0 {
                None
            } else if t[0] == ']' {
                Some((Json::Array(acc.push(v)), t.drop_first()))
            } else if t[0] == ',' && t.len() - 1 < s.len() {
                parse_elements(t.drop_first(), rem, acc.push(v))
            } else {
                None
            }
        },
    }
}

/// Reads the rest of an object after its `{`.
pub open spec fn parse_object(s: Seq<char>, rem: nat) -> Option<(Json, Seq<char>)>
    decreases rem, 2nat, s.len(),
{
    let t = skip_ws(s);
    if t.len() > 0 && t[0] == '}' {
        Some((Json::Object(Seq::empty()), t.drop_first()))
    } else {
        parse_members(t, rem, Seq::empty())
    }
}

/// Reads the members of an object, `acc` being those already read, up to
/// and including the closing `}`. Each member is a string key, a colon and a
/// value.
pub open spec fn parse_members(
    s: Seq<char>,
    rem: nat,
    acc: Seq<(Seq<char>, Json)>,
) -> Option<(Json, Seq<char>)>
    decreases rem, 1nat, s.len(),
{
    let t = skip_ws(s);
    if t.len() == 0 || t[0] != '"' {
        None
    } else {
        match parse_str(t.drop_first()) {
            None => None,
            Some((k, r1)) => {
                let u = skip_ws(r1);
                if u.len() == 0 || u[0] != ':' {
                    None
                } else {
                    match parse_value(u.drop_first(), rem) {
                        None => None,
                        Some((v, r2)) => {
                            let w = skip_ws(r2);
                            if w.len() == 0 {
                                None
                            } else if w[0] == '}' {
                                Some((Json::Object(acc.push((k, v))), w.drop_first()))
                            } else if w[0] == ',' && w.len() - 1 < s.len() {
                                parse_members(w.drop_first(), rem, acc.push((k, v)))
                            } else {
                                None
                            }
                        },
                    }
                }
            },
        }
    }
}

/// The value that the JSON text `s` holds, with white space allowed around it
/// and nothing else after it.
pub open spec fn parse_document(s: Seq<char>) -> Option<Json> {
    match parse_value(s, 128) {
        Some((v, r)) => if skip_ws(r).len() == 0 {
            Some(v)
        } else {
            None
        },
        None => None,
    }
}

/// The value of the last member of `members` named `key`, as an object
/// lookup gives it.
pub open spec fn member(members: Seq<(Seq<char>, Json)>, key: Seq<char>) -> Option<Json>
    decreases members.len(),
{
    if members.len() == 0 {
        None
    } else if members.last().0 == key {
        Some(members.last().1)
    } else {
        member(members.drop_last(), key)
    }
}

/// `v[key]` when `v` is an object that has the member.
pub open spec fn field(v: Json, key: Seq<char>) -> Option<Json> {
    match v {
        Json::Object(members) => member(members, key),
        _ => None,
    }
}

/// `v[0]` when `v` is a non-empty array.
pub open spec fn first_element(v: Json) -> Option<Json> {
    match v {
        Json::Array(items) => if items.len() > 0 {
            Some(items[0])
        } else {
            None
        },
        _ => None,
    }
}

/// The key `choices`.
pub open spec fn choices_key() -> Seq<char> {
    seq!['c', 'h', 'o', 'i', 'c', 'e', 's']
}

/// The key `delta`.
pub open spec fn delta_key() -> Seq<char> {
    seq!['d', 'e', 'l', 't', 'a']
}

/// The key `content`.
pub open spec fn content_key() -> Seq<char> {
    seq!['c', 'o', 'n', 't', 'e', 'n', 't']
}

/// The string at `choices[0].delta.content` of `v`, if that path leads to a
/// string.
pub open spec fn delta_content_of(v: Json) -> Option<Seq<char>> {
    match field(v, choices_key()) {
        Some(c) => match first_element(c) {
            Some(choice) => match field(choice, delta_key()) {
                Some(d) => match field(d, content_key()) {
                    Some(Json::Str(s)) => Some(s),
                    _ => None,
                },
                None => None,
            },
            None => None,
        },
        None => None,
    }
}


// ---------------------------------------------------------------------------
// Rendering values as compact JSON text
// ---------------------------------------------------------------------------

/// The lower-case hexadecimal digit for `d < 16`.
pub open spec fn hex_digit(d: nat) -> char {
    if d < 10 {
        ((d + 48) as u32) as char
    } else {
        ((d + 87) as u32) as char
    }
}

/// How one character of a string is written in JSON text: quote and
/// backslash escaped, control characters as short escapes or `\u00XX`.
pub open spec fn escaped_char(c: char) -> Seq<char> {
    if c == '"' {
        seq!['\\', '"']
    } else if c == '\\' {
        seq!['\\', '\\']
    } else if c == '\x08' {
        seq!['\\', 'b']
    } else if c == '\x0c' {
        seq!['\\', 'f']
    } else if c == '\n' {
        seq!['\\', 'n']
    } else if c == '\r' {
        seq!['\\', 'r']
    } else if c == '\t' {
        seq!['\\', 't']
    } else if (c as u32) < 0x20 {
        seq!['\\', 'u', '0', '0', hex_digit(((c as u32) / 16) as nat), hex_digit(((c as u32) % 16) as nat)]
    } else {
        seq![c]
    }
}

/// The characters of `s` as written inside a JSON string.
pub open spec fn escaped(s: Seq<char>) -> Seq<char>
    decreases s.len(),
{
    if s.len() == 0 {
        Seq::empty()
    } else {
        escaped_char(s[0]) + escaped(s.drop_first())
    }
}

/// `s` as a JSON string literal.
pub open spec fn quoted(s: Seq<char>) -> Seq<char> {
    seq!['"'] + escaped(s) + seq!['"']
}

/// The compact JSON text of `v`: no white space, members in order.
pub open spec fn render(v: Json) -> Seq<char>
    decreases v,
{
    match v {
        Json::Null => null_text(),
        Json::Bool(b) => if b {
            true_text()
        } else {
            false_text()
        },
        Json::Number(t) => t,
        Json::Str(s) => quoted(s),
        Json::Array(items) => seq!['['] + render_items(items) + seq![']'],
        Json::Object(members) => seq!['{'] + render_members(members) + seq!['}'],
    }
}

/// The elements of an array, separated by commas.
pub open spec fn render_items(items: Seq<Json>) -> Seq<char>
    decreases items,
{
    if items.len() == 0 {
        Seq::empty()
    } else {
        render(items[0]) + render_tail(items.drop_first())
    }
}

/// Elements after the first, each preceded by a comma.
pub open spec fn render_tail(items: Seq<Json>) -> Seq<char>
    decreases items,
{
    if items.len() == 0 {
        Seq::empty()
    } else {
        seq![','] + render(items[0]) + render_tail(items.drop_first())
    }
}

/// The members of an object, separated by commas.
pub open spec fn render_members(members: Seq<(Seq<char>, Json)>) -> Seq<char>
    decreases members,
{
    if members.len() == 0 {
        Seq::empty()
    } else {
        quoted(members[0].0) + seq![':'] + render(members[0].1) + render_member_tail(
            members.drop_first(),
        )
    }
}

/// Members after the first, each preceded by a comma.
pub open spec fn render_member_tail(members: Seq<(Seq<char>, Json)>) -> Seq<char>
    decreases members,
{
    if members.len() == 0 {
        Seq::empty()
    } else {
        seq![','] + quoted(members[0].0) + seq![':'] + render(members[0].1) + render_member_tail(
            members.drop_first(),
        )
    }
}

/// A number written as an unsigned integer: digits, no leading zero.
pub open spec fn plain_integer(t: Seq<char>) -> bool {
    &&& t.len() > 0
    &&& forall|i: int| 0 <= i < t.len() ==> is_ascii_digit(#[trigger] t[i])
    &&& t.len() > 1 ==> t[0] != '0'
}

/// `v` can be rendered and read back within the nesting budget `rem`; its
/// numbers are plain integers.
pub open spec fn renderable(v: Json, rem: nat) -> bool
    decreases v,
{
    match v {
        Json::Number(t) => plain_integer(t),
        Json::Array(items) => rem > 1 && items_renderable(items, (rem - 1) as nat),
        Json::Object(members) => rem > 1 && members_renderable(members, (rem - 1) as nat),
        _ => true,
    }
}

/// Every element is renderable within `rem`.
pub open spec fn items_renderable(items: Seq<Json>, rem: nat) -> bool
    decreases items,
{
    items.len() == 0 || (renderable(items[0], rem) && items_renderable(items.drop_first(), rem))
}

/// Every member value is renderable within `rem`.
pub open spec fn members_renderable(members: Seq<(Seq<char>, Json)>, rem: nat) -> bool
    decreases members,
{
    members.len() == 0 || (renderable(members[0].1, rem) && members_renderable(
        members.drop_first(),
        rem,
    ))
}

// ---------------------------------------------------------------------------
// Reading rendered text gives the value back
// ---------------------------------------------------------------------------

/// What may follow a value inside JSON text: nothing, or a separator or
/// closing bracket.
pub open spec fn ends_value(r: Seq<char>) -> bool {
    r.len() == 0 || r[0] == ',' || r[0] == ']' || r[0] == '}'
}

proof fn lemma_hex_digit(d: nat)
    requires
        d < 16,
    ensures
        hex_value(hex_digit(d)) == Some(d),
{
}

proof fn lemma_escape_char(c: char, rest: Seq<char>)
    requires
        escaped_char(c)[0] == '\\',
    ensures
        escape(escaped_char(c).drop_first() + rest) == Some((c, rest)),
{
    reveal(escape);
    reveal(hex4);
    let e = escaped_char(c).drop_first() + rest;
    if (c as u32) < 0x20 && c != '\x08' && c != '\x0c' && c != '\n' && c != '\r' && c != '\t' {
        let u = c as u32;
        lemma_hex_digit((u / 16) as nat);
        lemma_hex_digit((u % 16) as nat);
        assert(e[0] == 'u');
        assert(e.skip(1)[0] == '0' && e.skip(1)[1] == '0');
        assert(e.skip(1)[2] == hex_digit((u / 16) as nat));
        assert(e.skip(1)[3] == hex_digit((u % 16) as nat));
        assert(hex_value('0') == Some(0nat));
        assert(hex4(e.skip(1)) == Some(((u / 16) * 16 + u % 16) as nat));
        assert(e.skip(5) =~= rest);
        assert(((((u / 16) * 16 + u % 16) as nat) as u32) == u);
    } else {
        assert(e.drop_first() =~= rest);
    }
}

/// Reading the rest of a rendered string gives its characters and the text
/// after the closing quote.
#[verifier::rlimit(40)]
pub proof fn lemma_parse_str_rendered(s: Seq<char>, r: Seq<char>)
    ensures
        parse_str(escaped(s) + seq!['"'] + r) == Some((s, r)),
    decreases s.len(),
{
    let input = escaped(s) + seq!['"'] + r;
    if s.len() == 0 {
        assert(input =~= seq!['"'] + r);
        assert(input.drop_first() =~= r);
    } else {
        let c = s[0];
        let rest = s.drop_first();
        let tail = escaped(rest) + seq!['"'] + r;
        assert(input =~= escaped_char(c) + tail);
        lemma_parse_str_rendered(rest, r);
        if escaped_char(c)[0] == '\\' {
            lemma_escape_char(c, tail);
            assert(input.drop_first() =~= escaped_char(c).drop_first() + tail);
        } else {
            assert(escaped_char(c) =~= seq![c]);
            assert(input.drop_first() =~= tail);
        }
        assert(seq![c] + rest =~= s);
    }
}

proof fn lemma_digits_len_append(t: Seq<char>, r: Seq<char>)
    requires
        forall|i: int| 0 <= i < t.len() ==> is_ascii_digit(#[trigger] t[i]),
        r.len() == 0 || !is_ascii_digit(r[0]),
    ensures
        digits_len(t + r) == t.len(),
    decreases t.len(),
{
    if t.len() == 0 {
        assert(t + r =~= r);
    } else {
        assert((t + r).drop_first() =~= t.drop_first() + r);
        lemma_digits_len_append(t.drop_first(), r);
    }
}

proof fn lemma_number_rendered(t: Seq<char>, r: Seq<char>)
    requires
        plain_integer(t),
        ends_value(r),
    ensures
        number_len(t + r) == Some(t.len()),
{
    reveal(number_len);
    let s = t + r;
    assert(s[0] == t[0]);
    if t[0] == '0' {
        if s.len() > 1 {
            assert(s[1] == r[0]);
        }
    } else {
        lemma_digits_len_append(t, r);
        assert(s.skip(0) =~= s);
    }
    if s.len() > t.len() {
        assert(s[t.len() as int] == r[0]);
    }
}

proof fn lemma_render_first(v: Json, rem: nat)
    requires
        renderable(v, rem),
    ensures
        render(v).len() > 0,
        !is_json_ws(render(v)[0]),
        render(v)[0] != ']' && render(v)[0] != '}' && render(v)[0] != ',',
{
    match v {
        Json::Number(t) => {
            assert(is_ascii_digit(t[0]));
        },
        _ => {},
    }
}

/// Reading a renderable value followed by `r` gives the value back and
/// leaves `r`.
#[verifier::rlimit(40)]
pub proof fn lemma_parse_value_rendered(v: Json, rem: nat, r: Seq<char>)
    requires
        renderable(v, rem),
        ends_value(r),
    ensures
        parse_value(render(v) + r, rem) == Some((v, r)),
    decreases v,
{
    let input = render(v) + r;
    lemma_render_first(v, rem);
    assert(skip_ws(input) == input);
    match v {
        Json::Null => {
            assert(input.take(4) =~= null_text());
            assert(input.skip(4) =~= r);
            assert(parse_value(input, rem) == Some((v, r)));
        },
        Json::Bool(b) => {
            if b {
                assert(input.take(4) =~= true_text());
                assert(input.skip(4) =~= r);
            } else {
                assert(input.take(5) =~= false_text());
                assert(input.skip(5) =~= r);
            }
            assert(parse_value(input, rem) == Some((v, r)));
        },
        Json::Number(t) => {
            lemma_number_rendered(t, r);
            assert(input.take(t.len() as int) =~= t);
            assert(input.skip(t.len() as int) =~= r);
            assert(parse_value(input, rem) == Some((v, r)));
        },
        Json::Str(s) => {
            lemma_parse_str_rendered(s, r);
            assert(input.drop_first() =~= escaped(s) + seq!['"'] + r);
            assert(parse_value(input, rem) == Some((v, r)));
        },
        Json::Array(items) => {
            let body = render_items(items) + seq![']'] + r;
            assert(input.drop_first() =~= body);
            if items.len() == 0 {
                assert(body =~= seq![']'] + r);
                assert(body.drop_first() =~= r);
            } else {
                lemma_render_first(items[0], (rem - 1) as nat);
                assert(body[0] == render(items[0])[0]);
                lemma_parse_elements_rendered(items, (rem - 1) as nat, Seq::empty(), r);
                assert(Seq::<Json>::empty() + items =~= items);
                assert(skip_ws(body) == body);
                assert(parse_array(body, (rem - 1) as nat) == Some((v, r)));
            }
            assert(input[0] == '[');
            assert(parse_value(input, rem) == parse_array(input.drop_first(), (rem - 1) as nat));
            assert(parse_value(input, rem) == Some((v, r)));
        },
        Json::Object(members) => {
            let body = render_members(members) + seq!['}'] + r;
            assert(input.drop_first() =~= body);
            if members.len() == 0 {
                assert(body =~= seq!['}'] + r);
                assert(body.drop_first() =~= r);
            } else {
                assert(body[0] == '"');
                lemma_parse_members_rendered(members, (rem - 1) as nat, Seq::empty(), r);
                assert(Seq::<(Seq<char>, Json)>::empty() + members =~= members);
                assert(skip_ws(body) == body);
                assert(parse_object(body, (rem - 1) as nat) == Some((v, r)));
            }
            assert(input[0] == '{');
            assert(parse_value(input, rem) == parse_object(input.drop_first(), (rem - 1) as nat));
            assert(parse_value(input, rem) == Some((v, r)));
        },
    }
}

/// Reading the rendered elements of a non-empty array, then `]`, gives them
/// back after `acc`.
pub proof fn lemma_parse_elements_rendered(
    items: Seq<Json>,
    rem: nat,
    acc: Seq<Json>,
    r: Seq<char>,
)
    requires
        items.len() > 0,
        items_renderable(items, rem),
    ensures
        parse_elements(render_items(items) + seq![']'] + r, rem, acc) == Some(
            (Json::Array(acc + items), r),
        ),
    decreases items,
{
    let x0 = items[0];
    let rest = items.drop_first();
    let follow = render_tail(rest) + seq![']'] + r;
    let input = render_items(items) + seq![']'] + r;
    assert(input =~= render(x0) + follow);
    if rest.len() == 0 {
        assert(follow =~= seq![']'] + r);
    } else {
        assert(follow[0] == ',');
    }
    lemma_parse_value_rendered(x0, rem, follow);
    assert(skip_ws(follow) == follow);
    lemma_render_first(x0, rem);
    if rest.len() == 0 {
        assert(follow.drop_first() =~= r);
        assert(acc.push(x0) =~= acc + items);
    } else {
        assert(follow.drop_first() =~= render_items(rest) + seq![']'] + r);
        lemma_parse_elements_rendered(rest, rem, acc.push(x0), r);
        assert(acc.push(x0) + rest =~= acc + items);
    }
}

/// Reading the rendered members of a non-empty object, then `}`, gives them
/// back after `acc`.
#[verifier::rlimit(40)]
pub proof fn lemma_parse_members_rendered(
    members: Seq<(Seq<char>, Json)>,
    rem: nat,
    acc: Seq<(Seq<char>, Json)>,
    r: Seq<char>,
)
    requires
        members.len() > 0,
        members_renderable(members, rem),
    ensures
        parse_members(render_members(members) + seq!['}'] + r, rem, acc) == Some(
            (Json::Object(acc + members), r),
        ),
    decreases members,
{
    let k0 = members[0].0;
    let v0 = members[0].1;
    let rest = members.drop_first();
    let follow = render_member_tail(rest) + seq!['}'] + r;
    let after_key = seq![':'] + render(v0) + follow;
    let input = render_members(members) + seq!['}'] + r;
    assert(input =~= seq!['"'] + (escaped(k0) + seq!['"'] + after_key));
    assert(skip_ws(input) == input);
    assert(input.drop_first() =~= escaped(k0) + seq!['"'] + after_key);
    lemma_parse_str_rendered(k0, after_key);
    assert(skip_ws(after_key) == after_key);
    assert(after_key.drop_first() =~= render(v0) + follow);
    if rest.len() == 0 {
        assert(follow =~= seq!['}'] + r);
    } else {
        assert(follow[0] == ',');
    }
    lemma_parse_value_rendered(v0, rem, follow);
    assert(skip_ws(follow) == follow);
    lemma_render_first(v0, rem);
    if rest.len() == 0 {
        assert(follow.drop_first() =~= r);
        assert(acc.push((k0, v0)) =~= acc + members);
    } else {
        assert(follow.drop_first() =~= render_members(rest) + seq!['}'] + r);
        lemma_parse_members_rendered(rest, rem, acc.push((k0, v0)), r);
        assert(acc.push((k0, v0)) + rest =~= acc + members);
    }
}

/// Reading a rendered document that fits the nesting budget gives the value.
pub proof fn lemma_parse_document_rendered(v: Json)
    requires
        renderable(v, 128),
    ensures
        parse_document(render(v)) == Some(v),
{
    lemma_parse_value_rendered(v, 128, Seq::empty());
    assert(render(v) + Seq::<char>::empty() =~= render(v));
}

/// An object lookup finds the last member with the key.
pub proof fn lemma_member_last(
    before: Seq<(Seq<char>, Json)>,
    key: Seq<char>,
    value: Json,
    after: Seq<(Seq<char>, Json)>,
)
    requires
        forall|i: int| 0 <= i < after.len() ==> (#[trigger] after[i]).0 != key,
    ensures
        member(before.push((key, value)) + after, key) == Some(value),
    decreases after.len(),
{
    let all = before.push((key, value)) + after;
    if after.len() == 0 {
        assert(all =~= before.push((key, value)));
    } else {
        assert(all.last() == after.last());
        assert(all.drop_last() =~= before.push((key, value)) + after.drop_last());
        lemma_member_last(before, key, value, after.drop_last());
    }
}


/// Members around one more member are renderable when all of them are.
pub proof fn lemma_members_renderable_around(
    before: Seq<(Seq<char>, Json)>,
    key: Seq<char>,
    value: Json,
    after: Seq<(Seq<char>, Json)>,
    rem: nat,
)
    requires
        members_renderable(before, rem),
        renderable(value, rem),
        members_renderable(after, rem),
    ensures
        members_renderable(before.push((key, value)) + after, rem),
    decreases before.len(),
{
    let all = before.push((key, value)) + after;
    if before.len() == 0 {
        assert(all.drop_first() =~= after);
    } else {
        assert(all.drop_first() =~= before.drop_first().push((key, value)) + after);
        lemma_members_renderable_around(before.drop_first(), key, value, after, rem);
    }
}

/// The text of an object with one member.
pub proof fn lemma_render_single_member(key: Seq<char>, value: Json)
    ensures
        render(
            Json::Object(Seq::<(Seq<char>, Json)>::empty().push((key, value)) + Seq::<
                (Seq<char>, Json),
            >::empty()),
        ) == seq!['{'] + quoted(key) + seq![':'] + render(value) + seq!['}'],
{
    let ms = Seq::<(Seq<char>, Json)>::empty().push((key, value)) + Seq::<(Seq<char>, Json)>::empty();
    assert(ms.drop_first() =~= Seq::<(Seq<char>, Json)>::empty());
    assert(ms[0] == (key, value));
    assert(render_member_tail(ms.drop_first()) =~= Seq::<char>::empty());
    assert(render_members(ms) =~= quoted(key) + seq![':'] + render(value));
}

/// The text of an array with one element.
pub proof fn lemma_render_single_item(value: Json)
    ensures
        render(Json::Array(seq![value] + Seq::<Json>::empty())) == seq!['['] + render(value)
            + seq![']'],
{
    let items = seq![value] + Seq::<Json>::empty();
    assert(items.drop_first() =~= Seq::<Json>::empty());
    assert(items[0] == value);
    assert(render_tail(items.drop_first()) =~= Seq::<char>::empty());
    assert(render_items(items) =~= render(value));
}

/// A key of lower-case ASCII letters is quoted as itself.
pub proof fn lemma_quoted_plain_key(key: Seq<char>)
    requires
        forall|i: int| 0 <= i < key.len() ==> 'a' <= #[trigger] key[i] && key[i] <= 'z',
    ensures
        quoted(key) == seq!['"'] + key + seq!['"'],
    decreases key.len(),
{
    lemma_escaped_plain(key);
}

proof fn lemma_escaped_plain(key: Seq<char>)
    requires
        forall|i: int| 0 <= i < key.len() ==> 'a' <= #[trigger] key[i] && key[i] <= 'z',
    ensures
        escaped(key) == key,
    decreases key.len(),
{
    if key.len() > 0 {
        assert(escaped_char(key[0]) =~= seq![key[0]]);
        lemma_escaped_plain(key.drop_first());
        assert(seq![key[0]] + key.drop_first() =~= key);
    }
}

// ---------------------------------------------------------------------------
// The reader
// ---------------------------------------------------------------------------

/// A JSON value as the reader builds it.
pub enum JsonValue {
    Null,
    Bool(bool),
    Number(Vec<char>),
    Str(Vec<char>),
    Array(Vec<JsonValue>),
    Object(Vec<(Vec<char>, JsonValue)>),
}

impl JsonValue {
    /// The value this stands for.
    pub open spec fn model(&self) -> Json
        decreases self,
    {
        match self {
            JsonValue::Null => Json::Null,
            JsonValue::Bool(b) => Json::Bool(*b),
            JsonValue::Number(t) => Json::Number(t@),
            JsonValue::Str(s) => Json::Str(s@),
            JsonValue::Array(items) => Json::Array(items_model(items@)),
            JsonValue::Object(members) => Json::Object(members_model(members@)),
        }
    }
}

/// The values that `items` stand for.
pub open spec fn items_model(items: Seq<JsonValue>) -> Seq<Json>
    decreases items,
{
    if items.len() == 0 {
        Seq::empty()
    } else {
        items_model(items.drop_last()).push(items.last().model())
    }
}

/// The members that `members` stand for.
pub open spec fn members_model(members: Seq<(Vec<char>, JsonValue)>) -> Seq<(Seq<char>, Json)>
    decreases members,
{
    if members.len() == 0 {
        Seq::empty()
    } else {
        members_model(members.drop_last()).push((members.last().0@, members.last().1.model()))
    }
}

proof fn lemma_items_model(items: Seq<JsonValue>)
    ensures
        items_model(items).len() == items.len(),
        forall|i: int| 0 <= i < items.len() ==> #[trigger] items_model(items)[i] == items[i].model(),
    decreases items.len(),
{
    if items.len() > 0 {
        lemma_items_model(items.drop_last());
    }
}

proof fn lemma_members_model(members: Seq<(Vec<char>, JsonValue)>)
    ensures
        members_model(members).len() == members.len(),
        forall|i: int|
            0 <= i < members.len() ==> #[trigger] members_model(members)[i] == (
                members[i].0@,
                members[i].1.model(),
            ),
    decreases members.len(),
{
    if members.len() > 0 {
        lemma_members_model(members.drop_last());
    }
}

fn is_ws_char(c: char) -> (b: bool)
    ensures
        b == is_json_ws(c),
{
    c == ' ' || c == '\n' || c == '\t' || c == '\r'
}

fn is_digit_char(c: char) -> (b: bool)
    ensures
        b == is_ascii_digit(c),
{
    '0' <= c && c <= '9'
}

/// The position after the JSON white space at `i`.
fn read_ws(v: &[char], i: usize) -> (j: usize)
    requires
        i <= v@.len(),
    ensures
        i <= j <= v@.len(),
        v@.skip(j as int) == skip_ws(v@.skip(i as int)),
{
    let mut j = i;
    while j < v.len() && is_ws_char(v[j])
        invariant
            i <= j <= v@.len(),
            skip_ws(v@.skip(i as int)) == skip_ws(v@.skip(j as int)),
        decreases v@.len() - j,
    {
        assert(v@.skip(j as int).drop_first() =~= v@.skip(j + 1));
        j = j + 1;
    }
    j
}

/// Whether `lit` stands at position `t` of `v`.
fn has_literal(v: &[char], t: usize, lit: &[char]) -> (b: bool)
    requires
        t <= v@.len(),
    ensures
        b == (v@.len() - t >= lit@.len() && v@.skip(t as int).take(lit@.len() as int) == lit@),
{
    if v.len() - t < lit.len() {
        return false;
    }
    let mut k: usize = 0;
    while k < lit.len()
        invariant
            k <= lit@.len(),
            t + lit.len() <= v.len(),
            forall|m: int| 0 <= m < k ==> v@[t + m] == lit@[m],
        decreases lit@.len() - k,
    {
        if v[t + k] != lit[k] {
            assert(v@.skip(t as int).take(lit@.len() as int)[k as int] != lit@[k as int]);
            return false;
        }
        k = k + 1;
    }
    assert(v@.skip(t as int).take(lit@.len() as int) =~= lit@);
    true
}

fn hex_of(c: char) -> (r: Option<u32>)
    ensures
        match r {
            Some(d) => hex_value(c) == Some(d as nat) && d < 16,
            None => hex_value(c) is None,
        },
{
    if '0' <= c && c <= '9' {
        Some(c as u32 - '0' as u32)
    } else if 'a' <= c && c <= 'f' {
        Some(c as u32 - 'a' as u32 + 10)
    } else if 'A' <= c && c <= 'F' {
        Some(c as u32 - 'A' as u32 + 10)
    } else {
        None
    }
}

/// The four hexadecimal digits at position `i`.
fn read_hex4(v: &[char], i: usize) -> (r: Option<u32>)
    requires
        i <= v@.len(),
    ensures
        match r {
            Some(n) => hex4(v@.skip(i as int)) == Some(n as nat) && n < 0x10000 && i + 4
                <= v@.len(),
            None => hex4(v@.skip(i as int)) is None,
        },
{
    reveal(hex4);
    if v.len() - i < 4 {
        return None;
    }
    let a = hex_of(v[i]);
    let b = hex_of(v[i + 1]);
    let c = hex_of(v[i + 2]);
    let d = hex_of(v[i + 3]);
    match (a, b, c, d) {
        (Some(a), Some(b), Some(c), Some(d)) => Some(a * 4096 + b * 256 + c * 16 + d),
        _ => None,
    }
}

/// The UTF-8 bytes of the scalar value `n`.
fn scalar_bytes(n: u32) -> (b: Vec<u8>)
    requires
        is_scalar(n),
    ensures
        b@ == encode_scalar(n),
{
    if n <= 0x7F {
        vec![(n & 0x7F) as u8]
    } else if n <= 0x7FF {
        vec![0xC0 | ((n >> 6) & 0x1F) as u8, 0x80 | (n & 0x3F) as u8]
    } else if n <= 0xFFFF {
        vec![0xE0 | ((n >> 12) & 0x0F) as u8, 0x80 | ((n >> 6) & 0x3F) as u8, 0x80 | (n & 0x3F) as u8]
    } else {
        vec![
            0xF0 | ((n >> 18) & 0x7) as u8,
            0x80 | ((n >> 12) & 0x3F) as u8,
            0x80 | ((n >> 6) & 0x3F) as u8,
            0x80 | (n & 0x3F) as u8,
        ]
    }
}

/// The character whose scalar value is `n`.
fn char_of_scalar(n: u32) -> (c: char)
    requires
        is_scalar(n),
    ensures
        c == n as char,
{
    broadcast use vstd::utf8::group_utf8_lib;

    let bytes = scalar_bytes(n);
    assert(encode_utf8(seq![n as char]) =~= encode_scalar(n)) by {
        assert((n as char) as u32 == n);
        assert(seq![n as char].drop_first() =~= Seq::<char>::empty());
        assert(encode_utf8(Seq::<char>::empty()) =~= Seq::<u8>::empty());
        assert(encode_utf8(seq![n as char]) == encode_scalar((n as char) as u32) + encode_utf8(
            seq![n as char].drop_first(),
        ));
    }
    match utf8_text(bytes.as_slice()) {
        Some(s) => {
            let cs = chars_of(s.as_str());
            assert(cs@ =~= seq![n as char]);
            cs[0]
        },
        None => ' ',
    }
}

/// Reads the escape after a backslash at position `i`.
fn read_escape(v: &[char], i: usize) -> (r: Option<(char, usize)>)
    requires
        i <= v@.len(),
    ensures
        match r {
            Some((c, j)) => i < j <= v@.len() && escape(v@.skip(i as int)) == Some(
                (c, v@.skip(j as int)),
            ),
            None => escape(v@.skip(i as int)) is None,
        },
{
    reveal(escape);
    let ghost s = v@.skip(i as int);
    if i >= v.len() {
        return None;
    }
    assert(s.drop_first() =~= v@.skip(i + 1));
    let c = v[i];
    if c == '"' {
        Some(('"', i + 1))
    } else if c == '\\' {
        Some(('\\', i + 1))
    } else if c == '/' {
        Some(('/', i + 1))
    } else if c == 'b' {
        Some(('\x08', i + 1))
    } else if c == 'f' {
        Some(('\x0c', i + 1))
    } else if c == 'n' {
        Some(('\n', i + 1))
    } else if c == 'r' {
        Some(('\r', i + 1))
    } else if c == 't' {
        Some(('\t', i + 1))
    } else if c == 'u' {
        assert(s.skip(1) =~= v@.skip(i + 1));
        match read_hex4(v, i + 1) {
            None => None,
            Some(n) => {
                assert(s.skip(5) =~= v@.skip(i + 5));
                if 0xDC00 <= n && n <= 0xDFFF {
                    None
                } else if n < 0xD800 || n > 0xDBFF {
                    Some((char_of_scalar(n), i + 5))
                } else {
                    let j = i + 5;
                    let ghost t = s.skip(5);
                    if v.len() - j >= 2 && v[j] == '\\' && v[j + 1] == 'u' {
                        assert(t.skip(2) =~= v@.skip(j + 2));
                        match read_hex4(v, j + 2) {
                            Some(m) => if 0xDC00 <= m && m <= 0xDFFF {
                                assert(t.skip(6) =~= v@.skip(j + 6));
                                let cp = (n - 0xD800) * 1024 + (m - 0xDC00) + 0x10000;
                                Some((char_of_scalar(cp), j + 6))
                            } else {
                                None
                            },
                            None => None,
                        }
                    } else {
                        None
                    }
                }
            },
        }
    } else {
        None
    }
}

/// `r` with `o` in front of the characters it read.
pub open spec fn read_after(o: Seq<char>, r: Option<(Seq<char>, Seq<char>)>) -> Option<
    (Seq<char>, Seq<char>),
> {
    match r {
        Some((t, q)) => Some((o + t, q)),
        None => None,
    }
}

/// Reads the rest of a string whose opening quote is before position `i`.
fn read_str(v: &[char], i: usize) -> (r: Option<(Vec<char>, usize)>)
    requires
        i <= v@.len(),
    ensures
        match r {
            Some((out, j)) => i < j <= v@.len() && parse_str(v@.skip(i as int)) == Some(
                (out@, v@.skip(j as int)),
            ),
            None => parse_str(v@.skip(i as int)) is None,
        },
{
    let mut out: Vec<char> = Vec::new();
    let mut k = i;
    assert(read_after(out@, parse_str(v@.skip(i as int))) =~~= parse_str(v@.skip(i as int)));
    loop
        invariant
            i <= k <= v@.len(),
            parse_str(v@.skip(i as int)) == read_after(out@, parse_str(v@.skip(k as int))),
        decreases v@.len() - k,
    {
        let ghost s = v@.skip(k as int);
        if k >= v.len() {
            return None;
        }
        assert(s.drop_first() =~= v@.skip(k + 1));
        let c = v[k];
        if c == '"' {
            assert(out@ + Seq::<char>::empty() =~= out@);
            return Some((out, k + 1));
        } else if c == '\\' {
            match read_escape(v, k + 1) {
                None => {
                    return None;
                },
                Some((e, j)) => {
                    let ghost before = out@;
                    out.push(e);
                    proof {
                        match parse_str(v@.skip(j as int)) {
                            Some((t, q)) => {
                                assert(before + (seq![e] + t) =~= out@ + t);
                            },
                            None => {},
                        }
                    }
                    k = j;
                },
            }
        } else if (c as u32) < 0x20 {
            return None;
        } else {
            let ghost before = out@;
            out.push(c);
            proof {
                match parse_str(v@.skip(k + 1)) {
                    Some((t, q)) => {
                        assert(before + (seq![c] + t) =~= out@ + t);
                    },
                    None => {},
                }
            }
            k = k + 1;
        }
    }
}

/// The position after the ASCII digits at position `k`.
fn read_digits(v: &[char], k: usize) -> (e: usize)
    requires
        k <= v@.len(),
    ensures
        k <= e <= v@.len(),
        e - k == digits_len(v@.skip(k as int)),
{
    let mut e = k;
    while e < v.len() && is_digit_char(v[e])
        invariant
            k <= e <= v@.len(),
            digits_len(v@.skip(k as int)) == (e - k) + digits_len(v@.skip(e as int)),
        decreases v@.len() - e,
    {
        assert(v@.skip(e as int).drop_first() =~= v@.skip(e + 1));
        e = e + 1;
    }
    e
}

/// Reads the number at position `i`: the position after it.
#[verifier::rlimit(80)]
fn read_number(v: &[char], i: usize) -> (r: Option<usize>)
    requires
        i <= v@.len(),
    ensures
        match r {
            Some(j) => i <= j <= v@.len() && number_len(v@.skip(i as int)) == Some((j - i) as nat),
            None => number_len(v@.skip(i as int)) is None,
        },
{
    reveal(number_len);
    let ghost s = v@.skip(i as int);
    let n = v.len();
    let a = if i < n && v[i] == '-' { i + 1 } else { i };
    if a >= n || !is_digit_char(v[a]) {
        return None;
    }
    if v[a] == '0' && a + 1 < n && is_digit_char(v[a + 1]) {
        return None;
    }
    let b = if v[a] == '0' {
        a + 1
    } else {
        let e = read_digits(v, a);
        assert(s.skip(a - i) =~= v@.skip(a as int));
        e
    };
    let c = if b < n && v[b] == '.' {
        let d = read_digits(v, b + 1);
        assert(s.skip(b - i + 1) =~= v@.skip(b + 1));
        if d == b + 1 {
            return None;
        }
        d
    } else {
        b
    };
    if c < n && (v[c] == 'e' || v[c] == 'E') {
        let e = if c + 1 < n && (v[c + 1] == '+' || v[c + 1] == '-') {
            c + 2
        } else {
            c + 1
        };
        let d = read_digits(v, e);
        assert(s.skip(e - i) =~= v@.skip(e as int));
        if d == e {
            None
        } else {
            Some(d)
        }
    } else {
        Some(c)
    }
}

fn copy_chars(v: &[char], from: usize, to: usize) -> (r: Vec<char>)
    requires
        from <= to <= v@.len(),
    ensures
        r@ == v@.subrange(from as int, to as int),
{
    let mut r: Vec<char> = Vec::new();
    let mut k = from;
    while k < to
        invariant
            from <= k <= to <= v@.len(),
            r@ == v@.subrange(from as int, k as int),
        decreases to - k,
    {
        r.push(v[k]);
        assert(r@ =~= v@.subrange(from as int, k + 1));
        k = k + 1;
    }
    r
}

/// Reads the value after optional white space at position `i`, within the
/// nesting budget `rem`: the value and the position after it.
pub fn read_value(v: &[char], i: usize, rem: u32) -> (r: Option<(JsonValue, usize)>)
    requires
        i <= v@.len(),
    ensures
        match r {
            Some((x, j)) => i <= j <= v@.len() && parse_value(v@.skip(i as int), rem as nat)
                == Some((x.model(), v@.skip(j as int))),
            None => parse_value(v@.skip(i as int), rem as nat) is None,
        },
    decreases rem, 0nat, v@.len() - i,
{
    let t = read_ws(v, i);
    let ghost s = v@.skip(t as int);
    if t >= v.len() {
        return None;
    }
    assert(s.drop_first() =~= v@.skip(t + 1));
    let c = v[t];
    if c == 'n' {
        let lit = vec!['n', 'u', 'l', 'l'];
        assert(lit@ =~= null_text());
        if has_literal(v, t, lit.as_slice()) {
            assert(s.skip(4) =~= v@.skip(t + 4));
            Some((JsonValue::Null, t + 4))
        } else {
            None
        }
    } else if c == 't' {
        let lit = vec!['t', 'r', 'u', 'e'];
        assert(lit@ =~= true_text());
        if has_literal(v, t, lit.as_slice()) {
            assert(s.skip(4) =~= v@.skip(t + 4));
            Some((JsonValue::Bool(true), t + 4))
        } else {
            None
        }
    } else if c == 'f' {
        let lit = vec!['f', 'a', 'l', 's', 'e'];
        assert(lit@ =~= false_text());
        if has_literal(v, t, lit.as_slice()) {
            assert(s.skip(5) =~= v@.skip(t + 5));
            Some((JsonValue::Bool(false), t + 5))
        } else {
            None
        }
    } else if c == '"' {
        match read_str(v, t + 1) {
            Some((chars, j)) => Some((JsonValue::Str(chars), j)),
            None => None,
        }
    } else if c == '-' || is_digit_char(c) {
        match read_number(v, t) {
            Some(j) => {
                let text = copy_chars(v, t, j);
                assert(text@ =~= s.take((j - t) as int));
                assert(s.skip((j - t) as int) =~= v@.skip(j as int));
                Some((JsonValue::Number(text), j))
            },
            None => None,
        }
    } else if c == '[' {
        if rem <= 1 {
            None
        } else {
            read_array(v, t + 1, rem - 1)
        }
    } else if c == '{' {
        if rem <= 1 {
            None
        } else {
            read_object(v, t + 1, rem - 1)
        }
    } else {
        None
    }
}

/// Reads the rest of an array whose `[` is before position `i`.
fn read_array(v: &[char], i: usize, rem: u32) -> (r: Option<(JsonValue, usize)>)
    requires
        i <= v@.len(),
    ensures
        match r {
            Some((x, j)) => i <= j <= v@.len() && parse_array(v@.skip(i as int), rem as nat)
                == Some((x.model(), v@.skip(j as int))),
            None => parse_array(v@.skip(i as int), rem as nat) is None,
        },
    decreases rem, 2nat, v@.len() - i,
{
    let t = read_ws(v, i);
    if t < v.len() && v[t] == ']' {
        let items: Vec<JsonValue> = Vec::new();
        assert(v@.skip(t as int).drop_first() =~= v@.skip(t + 1));
        assert(items_model(items@) =~= Seq::<Json>::empty());
        return Some((JsonValue::Array(items), t + 1));
    }
    let mut items: Vec<JsonValue> = Vec::new();
    let mut k = t;
    assert(items_model(items@) =~= Seq::<Json>::empty());
    loop
        invariant
            i <= t <= k <= v@.len(),
            parse_array(v@.skip(i as int), rem as nat) == parse_elements(
                v@.skip(k as int),
                rem as nat,
                items_model(items@),
            ),
        decreases v@.len() - k,
    {
        match read_value(v, k, rem) {
            None => {
                return None;
            },
            Some((x, e)) => {
                let w = read_ws(v, e);
                if w >= v.len() {
                    return None;
                }
                let ghost before = items@;
                let ghost xm = x.model();
                assert(v@.skip(w as int).drop_first() =~= v@.skip(w + 1));
                if v[w] == ']' {
                    items.push(x);
                    assert(items@.drop_last() =~= before);
                    assert(items_model(items@) == items_model(before).push(xm));
                    return Some((JsonValue::Array(items), w + 1));
                } else if v[w] == ',' {
                    items.push(x);
                    assert(items@.drop_last() =~= before);
                    assert(items_model(items@) == items_model(before).push(xm));
                    k = w + 1;
                } else {
                    return None;
                }
            },
        }
    }
}

/// Reads the rest of an object whose `{` is before position `i`.
fn read_object(v: &[char], i: usize, rem: u32) -> (r: Option<(JsonValue, usize)>)
    requires
        i <= v@.len(),
    ensures
        match r {
            Some((x, j)) => i <= j <= v@.len() && parse_object(v@.skip(i as int), rem as nat)
                == Some((x.model(), v@.skip(j as int))),
            None => parse_object(v@.skip(i as int), rem as nat) is None,
        },
    decreases rem, 2nat, v@.len() - i,
{
    let t = read_ws(v, i);
    if t < v.len() && v[t] == '}' {
        let members: Vec<(Vec<char>, JsonValue)> = Vec::new();
        assert(v@.skip(t as int).drop_first() =~= v@.skip(t + 1));
        assert(members_model(members@) =~= Seq::<(Seq<char>, Json)>::empty());
        return Some((JsonValue::Object(members), t + 1));
    }
    let mut members: Vec<(Vec<char>, JsonValue)> = Vec::new();
    let mut k = t;
    assert(members_model(members@) =~= Seq::<(Seq<char>, Json)>::empty());
    loop
        invariant
            i <= t <= k <= v@.len(),
            parse_object(v@.skip(i as int), rem as nat) == parse_members(
                v@.skip(k as int),
                rem as nat,
                members_model(members@),
            ),
        decreases v@.len() - k,
    {
        let a = read_ws(v, k);
        if a >= v.len() || v[a] != '"' {
            return None;
        }
        assert(v@.skip(a as int).drop_first() =~= v@.skip(a + 1));
        match read_str(v, a + 1) {
            None => {
                return None;
            },
            Some((key, b)) => {
                let c = read_ws(v, b);
                if c >= v.len() || v[c] != ':' {
                    return None;
                }
                assert(v@.skip(c as int).drop_first() =~= v@.skip(c + 1));
                match read_value(v, c + 1, rem) {
                    None => {
                        return None;
                    },
                    Some((x, d)) => {
                        let w = read_ws(v, d);
                        if w >= v.len() {
                            return None;
                        }
                        let ghost before = members@;
                        let ghost km = key@;
                        let ghost xm = x.model();
                        assert(v@.skip(w as int).drop_first() =~= v@.skip(w + 1));
                        if v[w] == '}' {
                            members.push((key, x));
                            assert(members@.drop_last() =~= before);
                            assert(members_model(members@) == members_model(before).push((km, xm)));
                            return Some((JsonValue::Object(members), w + 1));
                        } else if v[w] == ',' {
                            members.push((key, x));
                            assert(members@.drop_last() =~= before);
                            assert(members_model(members@) == members_model(before).push((km, xm)));
                            k = w + 1;
                        } else {
                            return None;
                        }
                    },
                }
            },
        }
    }
}

/// Reads a whole JSON document (`serde_json::from_str::<Value>`): one value,
/// with only white space around it.
pub fn read_document(v: &[char]) -> (r: Option<JsonValue>)
    ensures
        match r {
            Some(x) => parse_document(v@) == Some(x.model()),
            None => parse_document(v@) is None,
        },
{
    assert(v@.skip(0) =~= v@);
    match read_value(v, 0, 128) {
        None => None,
        Some((x, e)) => {
            let w = read_ws(v, e);
            if w == v.len() {
                assert(v@.skip(w as int) =~= Seq::<char>::empty());
                Some(x)
            } else {
                None
            }
        },
    }
}

fn same_key(a: &[char], b: &[char]) -> (r: bool)
    ensures
        r == (a@ == b@),
{
    if a.len() != b.len() {
        return false;
    }
    let mut i: usize = 0;
    while i < a.len()
        invariant
            i <= a@.len() == b@.len(),
            forall|k: int| 0 <= k < i ==> a@[k] == b@[k],
        decreases a@.len() - i,
    {
        if a[i] != b[i] {
            return false;
        }
        i = i + 1;
    }
    assert(a@ =~= b@);
    true
}

/// `x[key]`: the value of the last member of `x` named `key`, when `x` is an
/// object.
fn read_field<'a>(x: &'a JsonValue, key: &[char]) -> (r: Option<&'a JsonValue>)
    ensures
        match r {
            Some(y) => field(x.model(), key@) == Some(y.model()),
            None => field(x.model(), key@) is None,
        },
{
    match x {
        JsonValue::Object(members) => {
            let mut k = members.len();
            assert(members@.take(k as int) =~= members@);
            while k > 0
                invariant
                    k <= members@.len(),
                    x.model() == Json::Object(members_model(members@)),
                    member(members_model(members@), key@) == member(
                        members_model(members@.take(k as int)),
                        key@,
                    ),
                decreases k,
            {
                let ghost pre = members@.take(k as int);
                assert(pre.drop_last() =~= members@.take(k - 1));
                assert(pre.last() == members@[k - 1]);
                let ghost mm = members_model(pre);
                let ghost p = (members@[k - 1].0@, members@[k - 1].1.model());
                assert(mm == members_model(members@.take(k - 1)).push(p));
                assert(mm.last() == p);
                assert(mm.drop_last() =~= members_model(members@.take(k - 1)));
                if same_key(members[k - 1].0.as_slice(), key) {
                    assert(mm.len() > 0 && mm.last().0 == key@);
                    assert(member(mm, key@) == Some(p.1));
                    return Some(&members[k - 1].1);
                }
                k = k - 1;
            }
            assert(members@.take(0) =~= Seq::<(Vec<char>, JsonValue)>::empty());
            None
        },
        _ => None,
    }
}

/// `x[0]`, when `x` is a non-empty array.
fn read_first<'a>(x: &'a JsonValue) -> (r: Option<&'a JsonValue>)
    ensures
        match r {
            Some(y) => first_element(x.model()) == Some(y.model()),
            None => first_element(x.model()) is None,
        },
{
    match x {
        JsonValue::Array(items) => {
            proof {
                lemma_items_model(items@);
            }
            if items.len() > 0 {
                Some(&items[0])
            } else {
                None
            }
        },
        _ => None,
    }
}

/// The string at `choices[0].delta.content` of `x`, if that path leads to a
/// string.
pub fn read_delta_content(x: &JsonValue) -> (r: Option<Vec<char>>)
    ensures
        match r {
            Some(s) => delta_content_of(x.model()) == Some(s@),
            None => delta_content_of(x.model()) is None,
        },
{
    let choices = vec!['c', 'h', 'o', 'i', 'c', 'e', 's'];
    let delta = vec!['d', 'e', 'l', 't', 'a'];
    let content = vec!['c', 'o', 'n', 't', 'e', 'n', 't'];
    assert(choices@ =~= choices_key());
    assert(delta@ =~= delta_key());
    assert(content@ =~= content_key());
    match read_field(x, choices.as_slice()) {
        None => None,
        Some(c) => match read_first(c) {
            None => None,
            Some(choice) => match read_field(choice, delta.as_slice()) {
                None => None,
                Some(d) => match read_field(d, content.as_slice()) {
                    Some(JsonValue::Str(s)) => {
                        let out = copy_chars(s.as_slice(), 0, s.len());
                        assert(out@ =~= s@);
                        Some(out)
                    },
                    _ => None,
                },
            },
        },
    }
}

} // verus!
