//! The wire codec of the service: a JSON object `{"message": ..., "author":
//! ...}` for one message, and a JSON array of such objects for a buffer
//! listing. Serialization and parsing are defined over character sequences,
//! and parsing inverts serialization.
//!
//! The serializer emits valid JSON for every message: `"` and `\` and the
//! common control characters get their named escapes, every other control
//! character becomes `\u00XX`. The parser decodes all of JSON's string
//! escapes, `\uXXXX` included, and rejects raw control characters inside
//! strings. Two deliberate narrowings against full JSON, both rejected with
//! a parse failure rather than misread: a `\uXXXX` escape must be a scalar
//! value (surrogate pairs are not decoded), and an unknown object member —
//! tolerated and ignored otherwise — must have a string or a plain literal
//! (number, `true`, `false`, `null`) as its value, not a nested object or
//! array.

use vstd::prelude::*;
use vstd::std_specs::iter::IteratorSpec;
use vstd::string::StringExecFns;

use crate::buffer::{Message, MessageV, msgs_view};

verus! {

broadcast use vstd::string::axiom_spec_iter, vstd::string::next_postcondition;

/// A control character: the code points JSON forbids raw inside strings.
pub open spec fn is_control(c: char) -> bool {
    (c as u32) < 0x20
}

/// The characters the serializer escapes inside a JSON string.
pub open spec fn is_escaped_char(c: char) -> bool {
    c == '"' || c == '\\' || is_control(c)
}

/// The lower-case hex digit of a value below sixteen.
pub open spec fn hex_char(n: u32) -> char {
    if n == 0 {
        '0'
    } else if n == 1 {
        '1'
    } else if n == 2 {
        '2'
    } else if n == 3 {
        '3'
    } else if n == 4 {
        '4'
    } else if n == 5 {
        '5'
    } else if n == 6 {
        '6'
    } else if n == 7 {
        '7'
    } else if n == 8 {
        '8'
    } else if n == 9 {
        '9'
    } else if n == 10 {
        'a'
    } else if n == 11 {
        'b'
    } else if n == 12 {
        'c'
    } else if n == 13 {
        'd'
    } else if n == 14 {
        'e'
    } else if n == 15 {
        'f'
    } else {
        '0'
    }
}

/// The value of one hex digit, either case.
pub open spec fn hex_val(c: char) -> Option<u32> {
    if c == '0' {
        Some(0u32)
    } else if c == '1' {
        Some(1u32)
    } else if c == '2' {
        Some(2u32)
    } else if c == '3' {
        Some(3u32)
    } else if c == '4' {
        Some(4u32)
    } else if c == '5' {
        Some(5u32)
    } else if c == '6' {
        Some(6u32)
    } else if c == '7' {
        Some(7u32)
    } else if c == '8' {
        Some(8u32)
    } else if c == '9' {
        Some(9u32)
    } else if c == 'a' || c == 'A' {
        Some(10u32)
    } else if c == 'b' || c == 'B' {
        Some(11u32)
    } else if c == 'c' || c == 'C' {
        Some(12u32)
    } else if c == 'd' || c == 'D' {
        Some(13u32)
    } else if c == 'e' || c == 'E' {
        Some(14u32)
    } else if c == 'f' || c == 'F' {
        Some(15u32)
    } else {
        None
    }
}

/// Reading back the hex digit of a value below sixteen gives the value.
proof fn lemma_hex_round_trip(n: u32)
    requires
        n < 16,
    ensures
        hex_val(hex_char(n)) == Some(n),
{
}

/// The escape sequence one character serializes to: named escapes for the
/// quote, the backslash and the common control characters, `\u00XX` for the
/// other control characters, the character itself for everything else.
pub open spec fn esc_char(c: char) -> Seq<char> {
    let v = c as u32;
    if c == '"' {
        seq!['\\', '"']
    } else if c == '\\' {
        seq!['\\', '\\']
    } else if c == '\n' {
        seq!['\\', 'n']
    } else if c == '\r' {
        seq!['\\', 'r']
    } else if c == '\t' {
        seq!['\\', 't']
    } else if c == '\u{8}' {
        seq!['\\', 'b']
    } else if c == '\u{c}' {
        seq!['\\', 'f']
    } else if is_control(c) {
        seq!['\\', 'u', '0', '0', hex_char((v / 16) as u32), hex_char((v % 16) as u32)]
    } else {
        seq![c]
    }
}

/// A string content escaped for embedding between JSON quotes.
pub open spec fn escape(s: Seq<char>) -> Seq<char>
    decreases s.len(),
{
    if s.len() == 0 {
        Seq::empty()
    } else {
        esc_char(s[0]) + escape(s.drop_first())
    }
}

/// What the character after a backslash stands for, the `u` of a `\uXXXX`
/// escape aside.
pub open spec fn unescaped(c: char) -> Option<char> {
    if c == '"' {
        Some('"')
    } else if c == '\\' {
        Some('\\')
    } else if c == '/' {
        Some('/')
    } else if c == 'n' {
        Some('\n')
    } else if c == 'r' {
        Some('\r')
    } else if c == 't' {
        Some('\t')
    } else if c == 'b' {
        Some('\u{8}')
    } else if c == 'f' {
        Some('\u{c}')
    } else {
        None
    }
}

/// JSON whitespace.
pub open spec fn is_ws(c: char) -> bool {
    c == ' ' || c == '\t' || c == '\n' || c == '\r'
}

/// The input with its leading whitespace removed.
pub open spec fn skip_ws(s: Seq<char>) -> Seq<char>
    decreases s.len(),
{
    if s.len() > 0 && is_ws(s[0]) {
        skip_ws(s.drop_first())
    } else {
        s
    }
}

/// Parse a JSON string body, starting just after the opening quote: the
/// decoded content and the input left after the closing quote. All of
/// JSON's escapes are decoded; a `\uXXXX` escape must name a scalar value
/// (a surrogate fails the parse); a raw control character fails the parse.
pub open spec fn parse_string_body(s: Seq<char>) -> Option<(Seq<char>, Seq<char>)>
    decreases s.len(),
{
    if s.len() == 0 {
        None
    } else if s[0] == '"' {
        Some((Seq::empty(), s.drop_first()))
    } else if s[0] == '\\' {
        if s.len() >= 2 && s[1] == 'u' {
            if s.len() < 6 {
                None
            } else {
                match (hex_val(s[2]), hex_val(s[3]), hex_val(s[4]), hex_val(s[5])) {
                    (Some(h1), Some(h2), Some(h3), Some(h4)) => {
                        let code = h1 * 4096 + h2 * 256 + h3 * 16 + h4;
                        if 0xD800 <= code && code <= 0xDFFF {
                            None
                        } else {
                            match parse_string_body(s.subrange(6, s.len() as int)) {
                                Some(p) => Some((seq![(code as u32) as char] + p.0, p.1)),
                                None => None,
                            }
                        }
                    },
                    _ => None,
                }
            }
        } else if s.len() >= 2 {
            match unescaped(s[1]) {
                Some(c) => match parse_string_body(s.subrange(2, s.len() as int)) {
                    Some(p) => Some((seq![c] + p.0, p.1)),
                    None => None,
                },
                None => None,
            }
        } else {
            None
        }
    } else if is_control(s[0]) {
        None
    } else {
        match parse_string_body(s.drop_first()) {
            Some(p) => Some((seq![s[0]] + p.0, p.1)),
            None => None,
        }
    }
}

/// Parse a quoted JSON string, opening quote included.
pub open spec fn parse_quoted(s: Seq<char>) -> Option<(Seq<char>, Seq<char>)> {
    if s.len() > 0 && s[0] == '"' {
        parse_string_body(s.drop_first())
    } else {
        None
    }
}

/// A character a plain literal value (a number, `true`, `false` or `null`)
/// may consist of.
pub open spec fn is_literal_char(c: char) -> bool {
    ('0' <= c && c <= '9') || c == '-' || c == '+' || c == '.' || c == 'e' || c == 'E' || c == 't'
        || c == 'r' || c == 'u' || c == 'a' || c == 'l' || c == 's' || c == 'n' || c == 'f'
}

/// Skip one plain literal value: a nonempty run of literal characters. The
/// run's spelling is not checked further; its value is ignored either way.
pub open spec fn parse_literal(s: Seq<char>) -> Option<Seq<char>>
    decreases s.len(),
{
    if s.len() == 0 || !is_literal_char(s[0]) {
        None
    } else if s.len() > 1 && is_literal_char(s[1]) {
        parse_literal(s.drop_first())
    } else {
        Some(s.drop_first())
    }
}

/// The key naming the content field.
pub open spec fn message_key() -> Seq<char> {
    seq!['m', 'e', 's', 's', 'a', 'g', 'e']
}

/// The key naming the author field.
pub open spec fn author_key() -> Seq<char> {
    seq!['a', 'u', 't', 'h', 'o', 'r']
}

/// Parse one object member, leading whitespace allowed: the key, the value
/// content where the value is a string (`None` where it is a plain
/// literal), and the input left after the value.
pub open spec fn parse_member_general(s: Seq<char>) -> Option<
    ((Seq<char>, Option<Seq<char>>), Seq<char>),
> {
    let s1 = skip_ws(s);
    match parse_quoted(s1) {
        Some((key, r1)) => {
            let r2 = skip_ws(r1);
            if r2.len() > 0 && r2[0] == ':' {
                let r3 = skip_ws(r2.drop_first());
                if r3.len() > 0 && r3[0] == '"' {
                    match parse_string_body(r3.drop_first()) {
                        Some((value, r4)) => Some(((key, Some(value)), r4)),
                        None => None,
                    }
                } else {
                    match parse_literal(r3) {
                        Some(r4) => Some(((key, None), r4)),
                        None => None,
                    }
                }
            } else {
                None
            }
        },
        None => None,
    }
}

/// Fold one parsed member into the two tracked fields: a `message` or
/// `author` member must have a string value and may appear only once; a
/// member under any other key is ignored.
pub open spec fn updated_fields(
    msg: Option<Seq<char>>,
    auth: Option<Seq<char>>,
    key: Seq<char>,
    val: Option<Seq<char>>,
) -> Option<(Option<Seq<char>>, Option<Seq<char>>)> {
    if key == message_key() {
        if msg is Some || val is None {
            None
        } else {
            Some((val, auth))
        }
    } else if key == author_key() {
        if auth is Some || val is None {
            None
        } else {
            Some((msg, val))
        }
    } else {
        Some((msg, auth))
    }
}

/// Parse the member list of the message object, from just after `{` to the
/// end of the input, folding members into the two fields; both must be
/// present once the `}` is reached. The fuel only bounds the recursion:
/// every member consumes input, so any fuel of at least the input's length
/// plus one never runs out.
pub open spec fn parse_members(
    s: Seq<char>,
    msg: Option<Seq<char>>,
    auth: Option<Seq<char>>,
    fuel: nat,
) -> Option<MessageV>
    decreases fuel,
{
    if fuel == 0 {
        None
    } else {
        match parse_member_general(s) {
            Some(((key, val), rest)) => match updated_fields(msg, auth, key, val) {
                Some((msg2, auth2)) => {
                    let r2 = skip_ws(rest);
                    if r2.len() > 0 && r2[0] == ',' {
                        parse_members(r2.drop_first(), msg2, auth2, (fuel - 1) as nat)
                    } else if r2.len() > 0 && r2[0] == '}' {
                        if skip_ws(r2.drop_first()).len() == 0 {
                            match (msg2, auth2) {
                                (Some(mv), Some(av)) => Some(
                                    MessageV { message: mv, author: av },
                                ),
                                _ => None,
                            }
                        } else {
                            None
                        }
                    } else {
                        None
                    }
                },
                None => None,
            },
            None => None,
        }
    }
}

/// Parse a whole request body as one message: a JSON object holding a
/// `message` member and an `author` member, each once, with string values,
/// in any position among ignored further members, whitespace allowed
/// between tokens and nothing but whitespace after the object.
pub open spec fn parse_message(s: Seq<char>) -> Option<MessageV> {
    let s1 = skip_ws(s);
    if s1.len() > 0 && s1[0] == '{' {
        parse_members(s1.drop_first(), None, None, s1.len())
    } else {
        None
    }
}

/// One serialized `"key":"value"` member.
pub open spec fn json_member(k: Seq<char>, v: Seq<char>) -> Seq<char> {
    seq!['"'] + k + seq!['"', ':', '"'] + escape(v) + seq!['"']
}

/// The JSON object one message serializes to.
pub open spec fn json_of_message(m: MessageV) -> Seq<char> {
    seq!['{'] + json_member(message_key(), m.message) + seq![','] + json_member(
        author_key(),
        m.author,
    ) + seq!['}']
}

/// The items of a serialized list, comma-separated.
pub open spec fn json_items(s: Seq<MessageV>) -> Seq<char>
    decreases s.len(),
{
    if s.len() == 0 {
        Seq::empty()
    } else if s.len() == 1 {
        json_of_message(s[0])
    } else {
        json_of_message(s[0]) + seq![','] + json_items(s.drop_first())
    }
}

/// The JSON array a buffer listing serializes to.
pub open spec fn json_of_list(s: Seq<MessageV>) -> Seq<char> {
    seq!['['] + json_items(s) + seq![']']
}

/// A sequence none of whose characters need escaping is its own escape.
pub proof fn lemma_escape_id(s: Seq<char>)
    requires
        forall|i: int| 0 <= i < s.len() ==> !is_escaped_char(#[trigger] s[i]),
    ensures
        escape(s) == s,
    decreases s.len(),
{
    if s.len() == 0 {
        assert(escape(s) =~= s);
    } else {
        lemma_escape_id(s.drop_first());
        assert(esc_char(s[0]) =~= seq![s[0]]);
        assert(escape(s) =~= seq![s[0]] + s.drop_first());
        assert(seq![s[0]] + s.drop_first() =~= s);
    }
}

/// Parsing a string body inverts escaping: the escaped content followed by
/// the closing quote and anything more parses back to exactly that content,
/// with the trailing input untouched.
pub proof fn lemma_parse_escape(s: Seq<char>, t: Seq<char>)
    ensures
        parse_string_body(escape(s) + seq!['"'] + t) == Some((s, t)),
    decreases s.len(),
{
    let input = escape(s) + seq!['"'] + t;
    if s.len() == 0 {
        assert(escape(s) =~= Seq::<char>::empty());
        assert(input =~= seq!['"'] + t);
        assert(input[0] == '"');
        assert(input.drop_first() =~= t);
        assert(Seq::<char>::empty() =~= s);
    } else {
        let c = s[0];
        let rest = s.drop_first();
        lemma_parse_escape(rest, t);
        let sub = escape(rest) + seq!['"'] + t;
        assert(escape(s) == esc_char(c) + escape(rest));
        assert(seq![c] + rest =~= s);
        if c == '"' || c == '\\' || c == '\n' || c == '\r' || c == '\t' || c == '\u{8}' || c
            == '\u{c}' {
            assert(esc_char(c).len() == 2);
            assert(esc_char(c)[0] == '\\');
            assert(esc_char(c)[1] != 'u');
            assert(unescaped(esc_char(c)[1]) == Some(c));
            assert(input =~= esc_char(c) + sub);
            assert(input[0] == '\\');
            assert(input[1] == esc_char(c)[1]);
            assert(input.subrange(2, input.len() as int) =~= sub);
        } else if is_control(c) {
            let v = c as u32;
            let hi = (v / 16) as u32;
            let lo = (v % 16) as u32;
            lemma_hex_round_trip(hi);
            lemma_hex_round_trip(lo);
            assert(esc_char(c) =~= seq!['\\', 'u', '0', '0', hex_char(hi), hex_char(lo)]);
            assert(input =~= esc_char(c) + sub);
            assert(input[0] == '\\');
            assert(input[1] == 'u');
            assert(input.len() >= 6);
            assert(input[2] == '0' && input[3] == '0');
            assert(input[4] == hex_char(hi) && input[5] == hex_char(lo));
            assert(hex_val('0') == Some(0u32));
            let code = 0 * 4096 + 0 * 256 + hi * 16 + lo;
            assert(code == v);
            assert(!(0xD800 <= code && code <= 0xDFFF));
            assert((code as u32) as char == c) by {
                vstd::utf8::char_u32_cast(c, v);
            }
            assert(input.subrange(6, input.len() as int) =~= sub);
        } else {
            assert(esc_char(c) =~= seq![c]);
            assert(input =~= seq![c] + sub);
            assert(input[0] == c);
            assert(!is_control(c));
            assert(input.drop_first() =~= sub);
        }
    }
}

/// Parsing a member inverts serializing one, for any key that needs no
/// escaping, with the trailing input untouched.
pub proof fn lemma_parse_member_exact(k: Seq<char>, v: Seq<char>, t: Seq<char>)
    requires
        forall|i: int| 0 <= i < k.len() ==> !is_escaped_char(#[trigger] k[i]),
    ensures
        parse_member_general(json_member(k, v) + t) == Some(((k, Some(v)), t)),
{
    let input = json_member(k, v) + t;
    assert(input[0] == '"');
    assert(skip_ws(input) == input);
    lemma_escape_id(k);
    let after_key = seq![':', '"'] + escape(v) + seq!['"'] + t;
    assert(input.drop_first() =~= escape(k) + seq!['"'] + after_key);
    lemma_parse_escape(k, after_key);
    assert(parse_quoted(input) == Some((k, after_key)));
    assert(skip_ws(after_key) == after_key);
    assert(after_key[0] == ':');
    let quoted_value = after_key.drop_first();
    assert(quoted_value =~= seq!['"'] + (escape(v) + seq!['"'] + t));
    assert(skip_ws(quoted_value) == quoted_value);
    assert(quoted_value[0] == '"');
    assert(quoted_value.drop_first() =~= escape(v) + seq!['"'] + t);
    lemma_parse_escape(v, t);
}

/// Neither field key holds a character the serializer escapes, and the two
/// differ.
proof fn lemma_keys_plain()
    ensures
        forall|i: int|
            0 <= i < message_key().len() ==> !is_escaped_char(#[trigger] message_key()[i]),
        forall|i: int| 0 <= i < author_key().len() ==> !is_escaped_char(#[trigger] author_key()[i]),
        message_key() != author_key(),
{
    assert forall|i: int| 0 <= i < message_key().len() implies !is_escaped_char(
        message_key()[i],
    ) by {
        if i == 0 {
        } else if i == 1 {
        } else if i == 2 {
        } else if i == 3 {
        } else if i == 4 {
        } else if i == 5 {
        } else {
            assert(i == 6);
        }
    }
    assert forall|i: int| 0 <= i < author_key().len() implies !is_escaped_char(
        author_key()[i],
    ) by {
        if i == 0 {
        } else if i == 1 {
        } else if i == 2 {
        } else if i == 3 {
        } else if i == 4 {
        } else {
            assert(i == 5);
        }
    }
    assert(message_key().len() != author_key().len());
}

/// Law: deserializing a serialized message returns an equal message — for
/// every message, parsing its JSON object gives back exactly its content
/// and author.
pub proof fn lemma_message_round_trip(m: MessageV)
    ensures
        parse_message(json_of_message(m)) == Some(m),
{
    lemma_keys_plain();
    let json = json_of_message(m);
    let member1 = json_member(message_key(), m.message);
    let member2 = json_member(author_key(), m.author);
    assert(json[0] == '{');
    assert(skip_ws(json) == json);
    let rest1 = seq![','] + member2 + seq!['}'];
    let body = json.drop_first();
    assert(body =~= member1 + rest1);
    let fuel = json.len();
    assert(fuel >= 2);
    lemma_parse_member_exact(message_key(), m.message, rest1);
    assert(updated_fields(None, None, message_key(), Some(m.message)) == Some(
        (Some(m.message), None::<Seq<char>>),
    ));
    assert(skip_ws(rest1) == rest1);
    assert(rest1[0] == ',');
    assert(rest1.drop_first() =~= member2 + seq!['}']);
    lemma_parse_member_exact(author_key(), m.author, seq!['}']);
    assert(updated_fields(Some(m.message), None, author_key(), Some(m.author)) == Some(
        (Some(m.message), Some(m.author)),
    ));
    assert(skip_ws(seq!['}']) == seq!['}']);
    assert(seq!['}'][0] == '}');
    assert(seq!['}'].drop_first() =~= Seq::<char>::empty());
    assert(skip_ws(Seq::<char>::empty()).len() == 0);
    assert(parse_members(rest1.drop_first(), Some(m.message), None, (fuel - 1) as nat) == Some(m));
    assert(parse_members(body, None, None, fuel) == Some(m));
}

/// The input from position `i` on.
pub open spec fn suffix(s: Seq<char>, i: int) -> Seq<char> {
    s.subrange(i, s.len() as int)
}

/// A parse outcome with `p` prepended to its content.
pub open spec fn opt_prepend(p: Seq<char>, o: Option<(Seq<char>, Seq<char>)>) -> Option<
    (Seq<char>, Seq<char>),
> {
    match o {
        Some(q) => Some((p + q.0, q.1)),
        None => None,
    }
}

/// The views of an optional owned string.
pub open spec fn opt_str_view(o: Option<String>) -> Option<Seq<char>> {
    match o {
        Some(s) => Some(s@),
        None => None,
    }
}

proof fn lemma_opt_prepend_push(p: Seq<char>, c: char, o: Option<(Seq<char>, Seq<char>)>)
    ensures
        opt_prepend(p.push(c), o) == opt_prepend(p, opt_prepend(seq![c], o)),
{
    match o {
        Some(q) => {
            assert(p.push(c) + q.0 =~= p + (seq![c] + q.0));
        },
        None => {},
    }
}

/// Escaping one more character appends its escape sequence.
proof fn lemma_escape_snoc(s: Seq<char>, c: char)
    ensures
        escape(s.push(c)) == escape(s) + esc_char(c),
    decreases s.len(),
{
    if s.len() == 0 {
        assert(s.push(c)[0] == c);
        assert(s.push(c).drop_first() =~= Seq::<char>::empty());
        assert(escape(Seq::<char>::empty()) =~= Seq::<char>::empty());
        assert(escape(s.push(c)) =~= esc_char(c));
        assert(escape(s) + esc_char(c) =~= esc_char(c));
    } else {
        lemma_escape_snoc(s.drop_first(), c);
        assert(s.push(c)[0] == s[0]);
        assert(s.push(c).drop_first() =~= s.drop_first().push(c));
        assert(esc_char(s[0]) + (escape(s.drop_first()) + esc_char(c)) =~= (esc_char(s[0])
            + escape(s.drop_first())) + esc_char(c));
    }
}

/// Serializing one more list item appends a comma (past the first item) and
/// the item's object.
proof fn lemma_json_items_snoc(s: Seq<MessageV>, x: MessageV)
    ensures
        json_items(s.push(x)) == if s.len() == 0 {
            json_of_message(x)
        } else {
            json_items(s) + seq![','] + json_of_message(x)
        },
    decreases s.len(),
{
    let p = s.push(x);
    if s.len() == 0 {
        assert(p[0] == x);
        assert(json_items(p) == json_of_message(x));
    } else if s.len() == 1 {
        assert(p[0] == s[0]);
        assert(p.drop_first() =~= seq![x]);
        assert(json_items(p.drop_first()) == json_of_message(x));
    } else {
        lemma_json_items_snoc(s.drop_first(), x);
        assert(p[0] == s[0]);
        assert(p.drop_first() =~= s.drop_first().push(x));
        assert(json_of_message(s[0]) + seq![','] + (json_items(s.drop_first()) + seq![',']
            + json_of_message(x)) =~= (json_of_message(s[0]) + seq![','] + json_items(
            s.drop_first(),
        )) + seq![','] + json_of_message(x));
    }
}

/// Relies on String::push: appends the given character to the end of the
/// string.
#[verifier::external_body]
fn push_char(s: &mut String, c: char)
    ensures
        final(s)@ == old(s)@.push(c),
{
    s.push(c);
}

/// Relies on char::from_u32: the scalar value with the given code — `Some`
/// exactly on codes that are no surrogate and at most the largest scalar.
pub assume_specification[ char::from_u32 ](i: u32) -> (r: Option<char>)
    ensures
        (i < 0xD800 || (0xE000 <= i && i <= 0x10FFFF)) ==> r == Some(i as char),
        !(i < 0xD800 || (0xE000 <= i && i <= 0x10FFFF)) ==> r is None,
;

/// The characters of a string slice, in order, as a vector.
fn str_chars(s: &str) -> (v: Vec<char>)
    ensures
        v@ == s@,
{
    let mut it = s.chars();
    let mut v: Vec<char> = Vec::new();
    loop
        invariant
            it.obeys_prophetic_iter_laws(),
            it.decrease() is Some,
            v@ + it.remaining() == s@,
        decreases it.decrease()->0,
    {
        match it.next() {
            Some(c) => {
                v.push(c);
                proof {
                    assert(v@ + it.remaining() =~= s@);
                }
            },
            None => {
                proof {
                    assert(v@ =~= s@);
                }
                return v;
            },
        }
    }
}

fn unescape_char(c: char) -> (r: Option<char>)
    ensures
        r == unescaped(c),
{
    if c == '"' {
        Some('"')
    } else if c == '\\' {
        Some('\\')
    } else if c == '/' {
        Some('/')
    } else if c == 'n' {
        Some('\n')
    } else if c == 'r' {
        Some('\r')
    } else if c == 't' {
        Some('\t')
    } else if c == 'b' {
        Some('\u{8}')
    } else if c == 'f' {
        Some('\u{c}')
    } else {
        None
    }
}

fn hex_val_of(c: char) -> (r: Option<u32>)
    ensures
        r == hex_val(c),
        r matches Some(n) ==> n < 16,
{
    if c >= '0' && c <= '9' {
        Some((c as u32) - ('0' as u32))
    } else if c >= 'a' && c <= 'f' {
        Some((c as u32) - ('a' as u32) + 10)
    } else if c >= 'A' && c <= 'F' {
        Some((c as u32) - ('A' as u32) + 10)
    } else {
        None
    }
}

fn hex_digit(n: u32) -> (c: char)
    requires
        n < 16,
    ensures
        c == hex_char(n),
{
    if n == 0 {
        '0'
    } else if n == 1 {
        '1'
    } else if n == 2 {
        '2'
    } else if n == 3 {
        '3'
    } else if n == 4 {
        '4'
    } else if n == 5 {
        '5'
    } else if n == 6 {
        '6'
    } else if n == 7 {
        '7'
    } else if n == 8 {
        '8'
    } else if n == 9 {
        '9'
    } else if n == 10 {
        'a'
    } else if n == 11 {
        'b'
    } else if n == 12 {
        'c'
    } else if n == 13 {
        'd'
    } else if n == 14 {
        'e'
    } else {
        'f'
    }
}

/// The position of the first non-whitespace character at or after `i`.
fn skip_ws_at(cs: &Vec<char>, i: usize) -> (j: usize)
    requires
        i <= cs@.len(),
    ensures
        i <= j <= cs@.len(),
        skip_ws(suffix(cs@, i as int)) == suffix(cs@, j as int),
{
    let mut j = i;
    loop
        invariant
            i <= j <= cs@.len(),
            skip_ws(suffix(cs@, i as int)) == skip_ws(suffix(cs@, j as int)),
        ensures
            i <= j <= cs@.len(),
            skip_ws(suffix(cs@, i as int)) == suffix(cs@, j as int),
        decreases cs@.len() - j,
    {
        if j >= cs.len() {
            proof {
                assert(suffix(cs@, j as int).len() == 0);
            }
            break ;
        }
        let c = cs[j];
        if !(c == ' ' || c == '\t' || c == '\n' || c == '\r') {
            proof {
                assert(suffix(cs@, j as int)[0] == c);
                assert(!is_ws(c));
            }
            break ;
        }
        proof {
            assert(suffix(cs@, j as int)[0] == c && is_ws(c));
            assert(suffix(cs@, j as int).drop_first() =~= suffix(cs@, j as int + 1));
        }
        j = j + 1;
    }
    j
}

/// Decode a JSON string body starting just after its opening quote: the
/// content and the position just past the closing quote.
fn parse_string_at(cs: &Vec<char>, start: usize) -> (r: Option<(String, usize)>)
    requires
        start <= cs@.len(),
    ensures
        match r {
            Some(p) => parse_string_body(suffix(cs@, start as int)) == Some(
                (p.0@, suffix(cs@, p.1 as int)),
            ) && start <= p.1 <= cs@.len(),
            None => parse_string_body(suffix(cs@, start as int)) is None,
        },
{
    let mut acc = String::new();
    let mut i = start;
    loop
        invariant
            start <= i <= cs@.len(),
            parse_string_body(suffix(cs@, start as int)) == opt_prepend(
                acc@,
                parse_string_body(suffix(cs@, i as int)),
            ),
        decreases cs@.len() - i,
    {
        if i >= cs.len() {
            proof {
                assert(suffix(cs@, i as int).len() == 0);
            }
            return None;
        }
        let c = cs[i];
        proof {
            assert(suffix(cs@, i as int)[0] == c);
        }
        if c == '"' {
            proof {
                assert(suffix(cs@, i as int).drop_first() =~= suffix(cs@, i as int + 1));
                assert(acc@ + Seq::<char>::empty() =~= acc@);
            }
            return Some((acc, i + 1));
        } else if c == '\\' {
            if i + 1 >= cs.len() {
                proof {
                    assert(suffix(cs@, i as int).len() < 2);
                }
                return None;
            }
            let e = cs[i + 1];
            proof {
                assert(suffix(cs@, i as int)[1] == e);
            }
            if e == 'u' {
                if cs.len() - i < 6 {
                    proof {
                        assert(suffix(cs@, i as int).len() < 6);
                    }
                    return None;
                }
                proof {
                    assert(suffix(cs@, i as int)[2] == cs@[i as int + 2]);
                    assert(suffix(cs@, i as int)[3] == cs@[i as int + 3]);
                    assert(suffix(cs@, i as int)[4] == cs@[i as int + 4]);
                    assert(suffix(cs@, i as int)[5] == cs@[i as int + 5]);
                }
                let h1 = hex_val_of(cs[i + 2]);
                let h2 = hex_val_of(cs[i + 3]);
                let h3 = hex_val_of(cs[i + 4]);
                let h4 = hex_val_of(cs[i + 5]);
                match (h1, h2, h3, h4) {
                    (Some(a), Some(b), Some(c2), Some(d)) => {
                        let code: u32 = a * 4096 + b * 256 + c2 * 16 + d;
                        if 0xD800 <= code && code <= 0xDFFF {
                            return None;
                        }
                        match char::from_u32(code) {
                            Some(u) => {
                                proof {
                                    let cur = suffix(cs@, i as int);
                                    assert(cur.subrange(6, cur.len() as int) =~= suffix(
                                        cs@,
                                        i as int + 6,
                                    ));
                                    lemma_opt_prepend_push(
                                        acc@,
                                        u,
                                        parse_string_body(suffix(cs@, i as int + 6)),
                                    );
                                }
                                push_char(&mut acc, u);
                                i = i + 6;
                            },
                            None => {
                                return None;
                            },
                        }
                    },
                    _ => {
                        return None;
                    },
                }
            } else {
                match unescape_char(e) {
                    Some(d) => {
                        proof {
                            let cur = suffix(cs@, i as int);
                            assert(cur.subrange(2, cur.len() as int) =~= suffix(cs@, i as int + 2));
                            lemma_opt_prepend_push(
                                acc@,
                                d,
                                parse_string_body(suffix(cs@, i as int + 2)),
                            );
                        }
                        push_char(&mut acc, d);
                        i = i + 2;
                    },
                    None => {
                        return None;
                    },
                }
            }
        } else if (c as u32) < 0x20 {
            proof {
                assert(is_control(c));
            }
            return None;
        } else {
            proof {
                assert(suffix(cs@, i as int).drop_first() =~= suffix(cs@, i as int + 1));
                lemma_opt_prepend_push(acc@, c, parse_string_body(suffix(cs@, i as int + 1)));
            }
            push_char(&mut acc, c);
            i = i + 1;
        }
    }
}

/// Skip one plain literal value at `start`: the position just past its last
/// character.
fn parse_literal_at(cs: &Vec<char>, start: usize) -> (r: Option<usize>)
    requires
        start <= cs@.len(),
    ensures
        match r {
            Some(j) => parse_literal(suffix(cs@, start as int)) == Some(suffix(cs@, j as int))
                && start < j <= cs@.len(),
            None => parse_literal(suffix(cs@, start as int)) is None,
        },
{
    if start >= cs.len() {
        proof {
            assert(suffix(cs@, start as int).len() == 0);
        }
        return None;
    }
    if !literal_char(cs[start]) {
        proof {
            assert(suffix(cs@, start as int)[0] == cs@[start as int]);
        }
        return None;
    }
    let mut i = start;
    loop
        invariant
            start <= i < cs@.len(),
            is_literal_char(cs@[i as int]),
            parse_literal(suffix(cs@, start as int)) == parse_literal(suffix(cs@, i as int)),
        decreases cs@.len() - i,
    {
        let n = cs.len();
        proof {
            assert(suffix(cs@, i as int)[0] == cs@[i as int]);
        }
        if i + 1 < n && literal_char(cs[i + 1]) {
            proof {
                assert(suffix(cs@, i as int)[1] == cs@[i as int + 1]);
                assert(suffix(cs@, i as int).drop_first() =~= suffix(cs@, i as int + 1));
            }
            i = i + 1;
        } else {
            proof {
                if i + 1 < cs@.len() {
                    assert(suffix(cs@, i as int)[1] == cs@[i as int + 1]);
                } else {
                    assert(suffix(cs@, i as int).len() == 1);
                }
                assert(suffix(cs@, i as int).drop_first() =~= suffix(cs@, i as int + 1));
            }
            return Some(i + 1);
        }
    }
}

fn literal_char(c: char) -> (b: bool)
    ensures
        b == is_literal_char(c),
{
    (c >= '0' && c <= '9') || c == '-' || c == '+' || c == '.' || c == 'e' || c == 'E' || c == 't'
        || c == 'r' || c == 'u' || c == 'a' || c == 'l' || c == 's' || c == 'n' || c == 'f'
}

/// Parse one object member starting at `start`: the key, the value content
/// where the value is a string (`None` for a plain literal), and the
/// position just past the value.
fn parse_member_at(cs: &Vec<char>, start: usize) -> (r: Option<(String, Option<String>, usize)>)
    requires
        start <= cs@.len(),
    ensures
        match r {
            Some(p) => parse_member_general(suffix(cs@, start as int)) == Some(
                ((p.0@, opt_str_view(p.1)), suffix(cs@, p.2 as int)),
            ) && start < p.2 <= cs@.len(),
            None => parse_member_general(suffix(cs@, start as int)) is None,
        },
{
    let j = skip_ws_at(cs, start);
    if j >= cs.len() {
        proof {
            assert(suffix(cs@, j as int).len() == 0);
        }
        return None;
    }
    if cs[j] != '"' {
        proof {
            assert(suffix(cs@, j as int)[0] != '"');
        }
        return None;
    }
    proof {
        assert(suffix(cs@, j as int)[0] == '"');
        assert(suffix(cs@, j as int).drop_first() =~= suffix(cs@, j as int + 1));
    }
    match parse_string_at(cs, j + 1) {
        None => None,
        Some((key, j2)) => {
            let j3 = skip_ws_at(cs, j2);
            if j3 >= cs.len() {
                proof {
                    assert(suffix(cs@, j3 as int).len() == 0);
                }
                return None;
            }
            if cs[j3] != ':' {
                proof {
                    assert(suffix(cs@, j3 as int)[0] != ':');
                }
                return None;
            }
            proof {
                assert(suffix(cs@, j3 as int)[0] == ':');
                assert(suffix(cs@, j3 as int).drop_first() =~= suffix(cs@, j3 as int + 1));
            }
            let j4 = skip_ws_at(cs, j3 + 1);
            if j4 < cs.len() && cs[j4] == '"' {
                proof {
                    assert(suffix(cs@, j4 as int)[0] == '"');
                    assert(suffix(cs@, j4 as int).drop_first() =~= suffix(cs@, j4 as int + 1));
                }
                match parse_string_at(cs, j4 + 1) {
                    None => None,
                    Some((value, j5)) => Some((key, Some(value), j5)),
                }
            } else {
                proof {
                    if j4 < cs@.len() {
                        assert(suffix(cs@, j4 as int)[0] != '"');
                    } else {
                        assert(suffix(cs@, j4 as int).len() == 0);
                    }
                }
                match parse_literal_at(cs, j4) {
                    None => None,
                    Some(j5) => Some((key, None, j5)),
                }
            }
        },
    }
}

/// Parse a request body as one message. Returns the message on exactly the
/// inputs the grammar accepts, and nothing otherwise.
pub fn message_from_json(s: &str) -> (r: Option<Message>)
    ensures
        match r {
            Some(m) => parse_message(s@) == Some(m@),
            None => parse_message(s@) is None,
        },
{
    let cs = str_chars(s);
    proof {
        assert(suffix(cs@, 0) =~= s@);
    }
    let j = skip_ws_at(&cs, 0);
    if j >= cs.len() {
        proof {
            assert(suffix(cs@, j as int).len() == 0);
        }
        return None;
    }
    if cs[j] != '{' {
        proof {
            assert(suffix(cs@, j as int)[0] != '{');
        }
        return None;
    }
    proof {
        assert(suffix(cs@, j as int)[0] == '{');
        assert(suffix(cs@, j as int).drop_first() =~= suffix(cs@, j as int + 1));
    }
    let ghost fuel0: nat = suffix(cs@, j as int).len();
    let ghost mut fuel: nat = fuel0;
    let mut i = j + 1;
    let mut msg: Option<String> = None;
    let mut auth: Option<String> = None;
    proof {
        assert(parse_message(s@) == parse_members(suffix(cs@, j as int + 1), None, None, fuel0));
    }
    loop
        invariant
            j + 1 <= i <= cs@.len(),
            fuel >= cs@.len() - i + 1,
            parse_message(s@) == parse_members(
                suffix(cs@, i as int),
                opt_str_view(msg),
                opt_str_view(auth),
                fuel,
            ),
        decreases cs@.len() - i,
    {
        let (key, val, j2) = match parse_member_at(&cs, i) {
            None => {
                return None;
            },
            Some(p) => p,
        };
        let mk: String = "message".to_owned();
        let ak: String = "author".to_owned();
        proof {
            reveal_strlit("message");
            reveal_strlit("author");
            assert(mk@ =~= message_key());
            assert(ak@ =~= author_key());
        }
        if key == mk {
            if msg.is_some() {
                return None;
            }
            match val {
                Some(v) => {
                    msg = Some(v);
                },
                None => {
                    return None;
                },
            }
        } else if key == ak {
            if auth.is_some() {
                return None;
            }
            match val {
                Some(v) => {
                    auth = Some(v);
                },
                None => {
                    return None;
                },
            }
        }
        let j3 = skip_ws_at(&cs, j2);
        if j3 >= cs.len() {
            proof {
                assert(suffix(cs@, j3 as int).len() == 0);
            }
            return None;
        }
        let c3 = cs[j3];
        proof {
            assert(suffix(cs@, j3 as int)[0] == c3);
        }
        if c3 == ',' {
            proof {
                assert(suffix(cs@, j3 as int).drop_first() =~= suffix(cs@, j3 as int + 1));
                fuel = (fuel - 1) as nat;
            }
            i = j3 + 1;
        } else if c3 == '}' {
            let j4 = skip_ws_at(&cs, j3 + 1);
            proof {
                assert(suffix(cs@, j3 as int).drop_first() =~= suffix(cs@, j3 as int + 1));
            }
            if j4 < cs.len() {
                proof {
                    assert(suffix(cs@, j4 as int).len() > 0);
                }
                return None;
            }
            proof {
                assert(suffix(cs@, j4 as int).len() == 0);
            }
            match (msg, auth) {
                (Some(mv), Some(av)) => {
                    return Some(Message { message: mv, author: av });
                },
                _ => {
                    return None;
                },
            }
        } else {
            return None;
        }
    }
}

/// Append the escaped form of `s` to `out`.
fn push_escaped(out: &mut String, s: &str)
    ensures
        final(out)@ == old(out)@ + escape(s@),
{
    let cs = str_chars(s);
    let mut i: usize = 0;
    while i < cs.len()
        invariant
            i <= cs@.len(),
            cs@ == s@,
            out@ == old(out)@ + escape(cs@.subrange(0, i as int)),
        decreases cs@.len() - i,
    {
        let c = cs[i];
        proof {
            lemma_escape_snoc(cs@.subrange(0, i as int), c);
            assert(cs@.subrange(0, i as int + 1) =~= cs@.subrange(0, i as int).push(
                cs@[i as int],
            ));
        }
        if c == '"' {
            push_char(out, '\\');
            push_char(out, '"');
        } else if c == '\\' {
            push_char(out, '\\');
            push_char(out, '\\');
        } else if c == '\n' {
            push_char(out, '\\');
            push_char(out, 'n');
        } else if c == '\r' {
            push_char(out, '\\');
            push_char(out, 'r');
        } else if c == '\t' {
            push_char(out, '\\');
            push_char(out, 't');
        } else if c == '\u{8}' {
            push_char(out, '\\');
            push_char(out, 'b');
        } else if c == '\u{c}' {
            push_char(out, '\\');
            push_char(out, 'f');
        } else {
            let v = c as u32;
            if v < 0x20 {
                push_char(out, '\\');
                push_char(out, 'u');
                push_char(out, '0');
                push_char(out, '0');
                push_char(out, hex_digit(v / 16));
                push_char(out, hex_digit(v % 16));
            } else {
                push_char(out, c);
            }
        }
        proof {
            assert(out@ =~= old(out)@ + escape(cs@.subrange(0, i as int + 1)));
        }
        i = i + 1;
    }
    proof {
        assert(cs@.subrange(0, cs@.len() as int) =~= cs@);
    }
}

/// Serialize one message as its JSON object.
pub fn message_to_json(m: &Message) -> (r: String)
    ensures
        r@ == json_of_message(m@),
{
    let mut out = String::new();
    out.append("{\"message\":\"");
    push_escaped(&mut out, m.message.as_str());
    out.append("\",\"author\":\"");
    push_escaped(&mut out, m.author.as_str());
    out.append("\"}");
    proof {
        reveal_strlit("{\"message\":\"");
        reveal_strlit("\",\"author\":\"");
        reveal_strlit("\"}");
        assert(out@ =~= json_of_message(m@));
    }
    out
}

/// Serialize a buffer listing as its JSON array, in insertion order.
pub fn list_to_json(msgs: &Vec<Message>) -> (r: String)
    ensures
        r@ == json_of_list(msgs_view(msgs@)),
{
    let mut out = String::new();
    out.append("[");
    proof {
        reveal_strlit("[");
        assert(msgs_view(msgs@).subrange(0, 0) =~= Seq::<MessageV>::empty());
        assert(out@ =~= seq!['['] + json_items(msgs_view(msgs@).subrange(0, 0)));
    }
    let mut i: usize = 0;
    while i < msgs.len()
        invariant
            i <= msgs@.len(),
            out@ == seq!['['] + json_items(msgs_view(msgs@).subrange(0, i as int)),
        decreases msgs@.len() - i,
    {
        if i > 0 {
            out.append(",");
        }
        let mj = message_to_json(&msgs[i]);
        out.append(mj.as_str());
        proof {
            reveal_strlit(",");
            lemma_json_items_snoc(msgs_view(msgs@).subrange(0, i as int), msgs@[i as int]@);
            assert(msgs_view(msgs@).subrange(0, i as int + 1) =~= msgs_view(msgs@).subrange(
                0,
                i as int,
            ).push(msgs@[i as int]@));
            assert(out@ =~= seq!['['] + json_items(msgs_view(msgs@).subrange(0, i as int + 1)));
        }
        i = i + 1;
    }
    out.append("]");
    proof {
        reveal_strlit("]");
        assert(msgs_view(msgs@).subrange(0, msgs@.len() as int) =~= msgs_view(msgs@));
        assert(out@ =~= json_of_list(msgs_view(msgs@)));
    }
    out
}

} // verus!
