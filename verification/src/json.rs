//! JSON values as the library holds them: by their compact serialization.
use vstd::prelude::*;
use vstd::std_specs::iter::IteratorSpec;
use crate::text::{push_char, push_int, int_text, hex_char};
use crate::item::Item;

verus! {

broadcast use vstd::string::group_string_axioms;

/// The six kinds of JSON value.
#[derive(Debug, Clone, Copy, PartialEq, Eq, Structural)]
pub enum JsonKind {
    Null,
    Bool,
    Number,
    String,
    Array,
    Object,
}

/// A JSON value, held as its compact serialization: no whitespace, object
/// members in key order, strings escaped as `serde_json` escapes them.
/// Two values are the same value exactly when their texts are equal.
#[derive(Debug, Clone, PartialEq, Eq)]
pub struct JsonValue {
    text: String,
}

impl View for JsonValue {
    type V = Seq<char>;

    closed spec fn view(&self) -> Seq<char> {
        self.text@
    }
}

pub open spec fn null_text() -> Seq<char> {
    seq!['n', 'u', 'l', 'l']
}

pub open spec fn bool_text(b: bool) -> Seq<char> {
    if b { seq!['t', 'r', 'u', 'e'] } else { seq!['f', 'a', 'l', 's', 'e'] }
}

/// How `serde_json` writes one character inside a string literal.
pub open spec fn escape_char(c: char) -> Seq<char> {
    if c == '"' {
        seq!['\\', '"']
    } else if c == '\\' {
        seq!['\\', '\\']
    } else if c == '\x08' {
        seq!['\\', 'b']
    } else if c == '\x0c' {
        seq!['\\', 'f']
    } else if c == '\n' {
        seq!['\\', 'n']
    } else if c == '\r' {
        seq!['\\', 'r']
    } else if c == '\t' {
        seq!['\\', 't']
    } else if (c as u32) < 0x20 {
        seq!['\\', 'u', '0', '0', hex_char((c as u32 / 16) as nat), hex_char((c as u32 % 16) as nat)]
    } else {
        seq![c]
    }
}

pub open spec fn escaped(s: Seq<char>) -> Seq<char>
    decreases s.len(),
{
    if s.len() == 0 {
        Seq::empty()
    } else {
        escaped(s.drop_last()) + escape_char(s.last())
    }
}

/// The JSON string literal for `s`.
pub open spec fn string_text(s: Seq<char>) -> Seq<char> {
    seq!['"'] + escaped(s) + seq!['"']
}

/// The value of a hexadecimal digit, in either case.
pub open spec fn hex_value(c: char) -> Option<int> {
    if c == '0' { Some(0) }
    else if c == '1' { Some(1) }
    else if c == '2' { Some(2) }
    else if c == '3' { Some(3) }
    else if c == '4' { Some(4) }
    else if c == '5' { Some(5) }
    else if c == '6' { Some(6) }
    else if c == '7' { Some(7) }
    else if c == '8' { Some(8) }
    else if c == '9' { Some(9) }
    else if c == 'a' || c == 'A' { Some(10) }
    else if c == 'b' || c == 'B' { Some(11) }
    else if c == 'c' || c == 'C' { Some(12) }
    else if c == 'd' || c == 'D' { Some(13) }
    else if c == 'e' || c == 'E' { Some(14) }
    else if c == 'f' || c == 'F' { Some(15) }
    else { None }
}

/// The character that a two-character escape (a backslash, then `e`)
/// stands for in JSON.
pub open spec fn short_escape(e: char) -> Option<char> {
    if e == '"' { Some('"') }
    else if e == '\\' { Some('\\') }
    else if e == '/' { Some('/') }
    else if e == 'b' { Some('\x08') }
    else if e == 'f' { Some('\x0c') }
    else if e == 'n' { Some('\n') }
    else if e == 'r' { Some('\r') }
    else if e == 't' { Some('\t') }
    else { None }
}

pub open spec fn cons_opt(c: char, rest: Option<Seq<char>>) -> Option<Seq<char>> {
    match rest {
        Some(r) => Some(seq![c] + r),
        None => None,
    }
}

/// The characters that the inside of a JSON string literal stands for,
/// reading escapes as JSON defines them; `None` where the text is not valid
/// JSON there: a bare `"`, a control character, an unknown or cut-off
/// escape, or a `\u` escape of a surrogate.
pub open spec fn json_unescape(t: Seq<char>) -> Option<Seq<char>>
    decreases t.len(),
{
    if t.len() == 0 {
        Some(Seq::empty())
    } else if t[0] == '\\' {
        if t.len() >= 6 && t[1] == 'u' {
            match (hex_value(t[2]), hex_value(t[3]), hex_value(t[4]), hex_value(t[5])) {
                (Some(a), Some(b), Some(c), Some(d)) => {
                    let v = ((a * 16 + b) * 16 + c) * 16 + d;
                    if 0xD800 <= v && v < 0xE000 {
                        None
                    } else {
                        cons_opt(v as char, json_unescape(t.skip(6)))
                    }
                },
                _ => None,
            }
        } else if t.len() >= 2 && t[1] != 'u' {
            match short_escape(t[1]) {
                Some(x) => cons_opt(x, json_unescape(t.skip(2))),
                None => None,
            }
        } else {
            None
        }
    } else if t[0] == '"' || (t[0] as u32) < 0x20 {
        None
    } else {
        cons_opt(t[0], json_unescape(t.skip(1)))
    }
}

/// The string that a JSON string literal stands for, if `t` is one.
pub open spec fn json_string_value(t: Seq<char>) -> Option<Seq<char>> {
    if t.len() >= 2 && t[0] == '"' && t.last() == '"' {
        json_unescape(t.subrange(1, t.len() - 1))
    } else {
        None
    }
}

proof fn lemma_escaped_front(s: Seq<char>)
    requires
        s.len() > 0,
    ensures
        escaped(s) == escape_char(s[0]) + escaped(s.drop_first()),
    decreases s.len(),
{
    if s.len() == 1 {
        assert(s.drop_last() =~= Seq::<char>::empty());
        assert(s.drop_first() =~= Seq::<char>::empty());
        assert(escaped(s) =~= escape_char(s[0]) + escaped(s.drop_first()));
    } else {
        let init = s.drop_last();
        lemma_escaped_front(init);
        assert(init.drop_first() =~= s.drop_first().drop_last());
        assert(s.drop_first().last() == s.last());
        assert(init[0] == s[0]);
        assert(escaped(s) =~= escape_char(s[0]) + escaped(s.drop_first()));
    }
}

proof fn lemma_unescape_char(c: char, rest: Seq<char>)
    ensures
        json_unescape(escape_char(c) + rest) == cons_opt(c, json_unescape(rest)),
{
    let e = escape_char(c);
    let t = e + rest;
    assert(t.skip(e.len() as int) =~= rest);
    if (c as u32) < 0x20 && c != '\x08' && c != '\x0c' && c != '\n' && c != '\r' && c != '\t' {
        let x = c as u32;
        let hi = (x / 16) as nat;
        let lo = (x % 16) as nat;
        assert(hi < 2 && lo < 16);
        assert(t[2] == '0' && t[3] == '0' && t[4] == hex_char(hi) && t[5] == hex_char(lo));
        assert(hex_value(hex_char(hi)) == Some(hi as int));
        assert(hex_value(hex_char(lo)) == Some(lo as int));
        assert(((0int * 16 + 0) * 16 + hi) * 16 + lo == x as int);
        assert((x as int) as char == c);
    }
}

proof fn lemma_unescape_escaped(s: Seq<char>)
    ensures
        json_unescape(escaped(s)) == Some(s),
    decreases s.len(),
{
    if s.len() == 0 {
        assert(escaped(s) =~= Seq::<char>::empty());
    } else {
        lemma_escaped_front(s);
        lemma_unescape_escaped(s.drop_first());
        lemma_unescape_char(s[0], escaped(s.drop_first()));
        assert(seq![s[0]] + s.drop_first() =~= s);
    }
}

/// A string's JSON text is a valid JSON string literal that stands for
/// exactly that string: reading it back as JSON gives the string again
/// (so a `"` or `\` inside it is escaped, and every character is kept).
pub proof fn law_string_text_reads_back(s: Seq<char>)
    ensures
        json_string_value(string_text(s)) == Some(s),
{
    let t = string_text(s);
    assert(t.subrange(1, t.len() - 1) =~= escaped(s));
    lemma_unescape_escaped(s);
}

/// The characters of a string, in order.
pub fn chars_of(s: &str) -> (v: Vec<char>)
    ensures
        v@ == s@,
{
    let mut v: Vec<char> = Vec::new();
    let mut it = s.chars();
    loop
        invariant
            it.obeys_prophetic_iter_laws(),
            it.decrease() is Some,
            s@ == v@ + it.remaining(),
        decreases it.decrease()->0,
    {
        let ghost before = it.remaining();
        match it.next() {
            Some(c) => {
                assert(before =~= seq![c] + it.remaining());
                v.push(c);
                assert(s@ =~= v@ + it.remaining());
            },
            None => {
                assert(v@ =~= s@);
                return v;
            },
        }
    }
}

/// Appends the escaped form of one character.
pub fn push_escaped_char(out: &mut String, c: char)
    ensures
        final(out)@ == old(out)@ + escape_char(c),
{
    if c == '"' {
        push_char(out, '\\');
        push_char(out, '"');
    } else if c == '\\' {
        push_char(out, '\\');
        push_char(out, '\\');
    } else if c == '\x08' {
        push_char(out, '\\');
        push_char(out, 'b');
    } else if c == '\x0c' {
        push_char(out, '\\');
        push_char(out, 'f');
    } else if c == '\n' {
        push_char(out, '\\');
        push_char(out, 'n');
    } else if c == '\r' {
        push_char(out, '\\');
        push_char(out, 'r');
    } else if c == '\t' {
        push_char(out, '\\');
        push_char(out, 't');
    } else if (c as u32) < 0x20 {
        let code = c as u32;
        push_char(out, '\\');
        push_char(out, 'u');
        push_char(out, '0');
        push_char(out, '0');
        push_char(out, hex_digit_char(code / 16));
        push_char(out, hex_digit_char(code % 16));
    } else {
        push_char(out, c);
    }
    assert(final(out)@ =~= old(out)@ + escape_char(c));
}

fn hex_digit_char(d: u32) -> (c: char)
    requires
        d < 16,
    ensures
        c == hex_char(d as nat),
{
    if d == 0 { '0' }
    else if d == 1 { '1' }
    else if d == 2 { '2' }
    else if d == 3 { '3' }
    else if d == 4 { '4' }
    else if d == 5 { '5' }
    else if d == 6 { '6' }
    else if d == 7 { '7' }
    else if d == 8 { '8' }
    else if d == 9 { '9' }
    else if d == 10 { 'a' }
    else if d == 11 { 'b' }
    else if d == 12 { 'c' }
    else if d == 13 { 'd' }
    else if d == 14 { 'e' }
    else { 'f' }
}

/// Appends the JSON string literal for `s`.
pub fn push_string_literal(out: &mut String, s: &str)
    ensures
        final(out)@ == old(out)@ + string_text(s@),
{
    let cs = chars_of(s);
    push_char(out, '"');
    let ghost start = out@;
    let mut i: usize = 0;
    while i < cs.len()
        invariant
            i <= cs@.len(),
            cs@ == s@,
            out@ == start + escaped(cs@.take(i as int)),
        decreases cs@.len() - i,
    {
        push_escaped_char(out, cs[i]);
        assert(cs@.take(i + 1).drop_last() =~= cs@.take(i as int));
        i = i + 1;
    }
    assert(cs@.take(cs@.len() as int) =~= cs@);
    push_char(out, '"');
    assert(final(out)@ =~= old(out)@ + string_text(s@));
}

impl JsonValue {
    /// The compact JSON text of the value.
    pub fn as_text(&self) -> (t: &str)
        ensures
            t@ == self@,
    {
        self.text.as_str()
    }

    /// Wraps a text that is already the compact serialization of a value.
    pub(crate) fn from_text(text: String) -> (v: JsonValue)
        ensures
            v@ == text@,
    {
        JsonValue { text }
    }

    /// A copy of the value.
    pub fn duplicate(&self) -> (v: JsonValue)
        ensures
            v@ == self@,
    {
        JsonValue { text: self.text.clone() }
    }

    /// `null`.
    pub fn null() -> (v: JsonValue)
        ensures
            v@ == null_text(),
    {
        let t = "null";
        proof { reveal_strlit("null"); }
        JsonValue { text: t.to_string() }
    }

    /// `true` or `false`.
    pub fn boolean(b: bool) -> (v: JsonValue)
        ensures
            v@ == bool_text(b),
    {
        let t = if b { "true" } else { "false" };
        proof {
            reveal_strlit("true");
            reveal_strlit("false");
        }
        JsonValue { text: t.to_string() }
    }

    /// An integer number.
    pub fn from_i64(n: i64) -> (v: JsonValue)
        ensures
            v@ == int_text(n as int),
    {
        let mut t = String::new();
        push_int(&mut t, n);
        assert(t@ =~= int_text(n as int));
        JsonValue { text: t }
    }

    /// A string.
    pub fn string(s: &str) -> (v: JsonValue)
        ensures
            v@ == string_text(s@),
    {
        let mut t = String::new();
        push_string_literal(&mut t, s);
        assert(t@ =~= string_text(s@));
        JsonValue { text: t }
    }
}

/// One member of an object: `"key":value`.
pub open spec fn member_text(k: Seq<char>, v: Seq<char>) -> Seq<char> {
    string_text(k) + seq![':'] + v
}

/// The members of an object, separated by commas.
pub open spec fn members_text(e: Seq<(Seq<char>, Seq<char>)>) -> Seq<char>
    decreases e.len(),
{
    if e.len() == 0 {
        Seq::empty()
    } else if e.len() == 1 {
        member_text(e[0].0, e[0].1)
    } else {
        members_text(e.drop_last()) + seq![','] + member_text(e.last().0, e.last().1)
    }
}

/// The compact text of an object with the given members, in that order.
pub open spec fn object_text(e: Seq<(Seq<char>, Seq<char>)>) -> Seq<char> {
    seq!['{'] + members_text(e) + seq!['}']
}

/// The elements of an array, separated by commas.
pub open spec fn elements_text(xs: Seq<Seq<char>>) -> Seq<char>
    decreases xs.len(),
{
    if xs.len() == 0 {
        Seq::empty()
    } else if xs.len() == 1 {
        xs[0]
    } else {
        elements_text(xs.drop_last()) + seq![','] + xs.last()
    }
}

/// The compact text of an array with the given elements.
pub open spec fn array_text(xs: Seq<Seq<char>>) -> Seq<char> {
    seq!['['] + elements_text(xs) + seq![']']
}

/// Appends the compact text of an object with the item's fields in key order.
pub fn push_object(out: &mut String, item: &Item)
    ensures
        final(out)@ == old(out)@ + object_text(item.entries()),
{
    push_char(out, '{');
    let ghost start = out@;
    let mut i: usize = 0;
    while i < item.len()
        invariant
            i <= item.entries().len(),
            out@ == start + members_text(item.entries().take(i as int)),
        decreases item.entries().len() - i,
    {
        let ghost e = item.entries().take(i + 1);
        assert(e.drop_last() =~= item.entries().take(i as int));
        if i > 0 {
            push_char(out, ',');
        }
        push_string_literal(out, item.key_at(i).as_str());
        push_char(out, ':');
        out.append(item.value_at(i).as_text());
        proof {
            if i == 0 {
                assert(members_text(item.entries().take(0)) =~= Seq::<char>::empty());
            }
        }
        assert(out@ =~= start + members_text(e));
        i = i + 1;
    }
    assert(item.entries().take(item.entries().len() as int) =~= item.entries());
    push_char(out, '}');
    assert(final(out)@ =~= old(out)@ + object_text(item.entries()));
}

impl JsonValue {
    /// An object with the item's fields.
    pub fn object(item: &Item) -> (v: JsonValue)
        ensures
            v@ == object_text(item.entries()),
    {
        let mut t = String::new();
        push_object(&mut t, item);
        assert(t@ =~= object_text(item.entries()));
        JsonValue { text: t }
    }

    /// An array of the given values.
    pub fn array(values: &Vec<JsonValue>) -> (v: JsonValue)
        ensures
            v@ == array_text(values@.map_values(|x: JsonValue| x@)),
    {
        let ghost xs = values@.map_values(|x: JsonValue| x@);
        let mut t = String::new();
        push_char(&mut t, '[');
        let mut i: usize = 0;
        while i < values.len()
            invariant
                i <= values@.len(),
                xs == values@.map_values(|x: JsonValue| x@),
                t@ == seq!['['] + elements_text(xs.take(i as int)),
            decreases values@.len() - i,
        {
            assert(xs.take(i + 1).drop_last() =~= xs.take(i as int));
            if i > 0 {
                push_char(&mut t, ',');
            }
            t.append(values[i].text.as_str());
            proof {
                if i == 0 {
                    assert(elements_text(xs.take(0)) =~= Seq::<char>::empty());
                    assert(xs.take(1) =~= seq![xs[0]]);
                }
            }
            assert(t@ =~= seq!['['] + elements_text(xs.take(i + 1)));
            i = i + 1;
        }
        assert(xs.take(values@.len() as int) =~= xs);
        push_char(&mut t, ']');
        assert(t@ =~= array_text(xs));
        JsonValue { text: t }
    }
}

/// The name of a kind, as it appears in messages.
pub open spec fn kind_name(k: JsonKind) -> Seq<char> {
    match k {
        JsonKind::Null => seq!['n', 'u', 'l', 'l'],
        JsonKind::Bool => seq!['b', 'o', 'o', 'l', 'e', 'a', 'n'],
        JsonKind::Number => seq!['n', 'u', 'm', 'b', 'e', 'r'],
        JsonKind::String => seq!['s', 't', 'r', 'i', 'n', 'g'],
        JsonKind::Array => seq!['a', 'r', 'r', 'a', 'y'],
        JsonKind::Object => seq!['o', 'b', 'j', 'e', 'c', 't'],
    }
}

/// The name of a value's kind, for messages.
pub fn kind_name_str(k: JsonKind) -> (s: &'static str)
    ensures
        s@ == kind_name(k),
{
    proof {
        reveal_strlit("null");
        reveal_strlit("boolean");
        reveal_strlit("number");
        reveal_strlit("string");
        reveal_strlit("array");
        reveal_strlit("object");
    }
    match k {
        JsonKind::Null => "null",
        JsonKind::Bool => "boolean",
        JsonKind::Number => "number",
        JsonKind::String => "string",
        JsonKind::Array => "array",
        JsonKind::Object => "object",
    }
}

} // verus!
