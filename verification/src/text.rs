//! Small verified helpers on strings and bytes.
use vstd::prelude::*;

verus! {

/// `suffix` is a suffix of `s`.
pub open spec fn has_suffix(s: Seq<char>, suffix: Seq<char>) -> bool {
    suffix.len() <= s.len() && s.subrange(s.len() - suffix.len(), s.len() as int) == suffix
}

/// Whether `s` ends with `suffix` (compared character by character).
pub fn str_ends_with(s: &str, suffix: &str) -> (b: bool)
    ensures
        b == has_suffix(s@, suffix@),
{
    let n = s.unicode_len();
    let m = suffix.unicode_len();
    if m > n {
        return false;
    }
    let off = n - m;
    let mut i: usize = 0;
    while i < m
        invariant
            n == s@.len(),
            m == suffix@.len(),
            off == n - m,
            i <= m,
            forall|j: int| 0 <= j < i ==> s@[off + j] == suffix@[j],
        decreases m - i,
    {
        if s.get_char(off + i) != suffix.get_char(i) {
            assert(s@.subrange(off as int, n as int)[i as int] != suffix@[i as int]);
            return false;
        }
        i = i + 1;
    }
    assert(s@.subrange(off as int, n as int) =~= suffix@);
    true
}

} // verus!

verus! {

/// Lexicographic order on byte strings, looking from index `i` on,
/// given that the two agree before `i`.
pub open spec fn lex_lt_from(a: Seq<u8>, b: Seq<u8>, i: int) -> bool
    decreases a.len() - i,
{
    if i < 0 || i >= a.len() {
        0 <= i < b.len()
    } else if i >= b.len() {
        false
    } else if a[i] != b[i] {
        a[i] < b[i]
    } else {
        lex_lt_from(a, b, i + 1)
    }
}

/// The order of `str` and `String` in Rust: lexicographic on the UTF-8 bytes.
pub open spec fn bytes_lt(a: Seq<u8>, b: Seq<u8>) -> bool {
    lex_lt_from(a, b, 0)
}

/// The byte order lifted to character sequences through their UTF-8 encoding.
pub open spec fn str_lt(a: Seq<char>, b: Seq<char>) -> bool {
    bytes_lt(vstd::utf8::encode_utf8(a), vstd::utf8::encode_utf8(b))
}

pub open spec fn str_le(a: Seq<char>, b: Seq<char>) -> bool {
    a == b || str_lt(a, b)
}

proof fn lemma_lex_from_irreflexive_asym(a: Seq<u8>, b: Seq<u8>, i: int)
    requires
        0 <= i,
    ensures
        !(lex_lt_from(a, b, i) && lex_lt_from(b, a, i)),
    decreases a.len() - i,
{
    if i < a.len() && i < b.len() && a[i] == b[i] {
        lemma_lex_from_irreflexive_asym(a, b, i + 1);
    }
}

proof fn lemma_lex_from_trans(a: Seq<u8>, b: Seq<u8>, c: Seq<u8>, i: int)
    requires
        0 <= i,
        lex_lt_from(a, b, i),
        lex_lt_from(b, c, i),
    ensures
        lex_lt_from(a, c, i),
    decreases a.len() - i,
{
    if i < a.len() && i < b.len() && i < c.len() && a[i] == b[i] && b[i] == c[i] {
        lemma_lex_from_trans(a, b, c, i + 1);
    }
}

proof fn lemma_lex_from_total(a: Seq<u8>, b: Seq<u8>, i: int)
    requires
        0 <= i <= a.len(),
        i <= b.len(),
        a.subrange(0, i) == b.subrange(0, i),
        a != b,
    ensures
        lex_lt_from(a, b, i) || lex_lt_from(b, a, i),
    decreases a.len() - i,
{
    if i == a.len() && i == b.len() {
        assert(a =~= a.subrange(0, i));
        assert(b =~= b.subrange(0, i));
    } else if i < a.len() && i < b.len() && a[i] == b[i] {
        assert(a.subrange(0, i + 1) =~= a.subrange(0, i).push(a[i]));
        assert(b.subrange(0, i + 1) =~= b.subrange(0, i).push(b[i]));
        lemma_lex_from_total(a, b, i + 1);
    }
}

/// The byte order is a strict total order.
pub proof fn lemma_bytes_lt_order(a: Seq<u8>, b: Seq<u8>, c: Seq<u8>)
    ensures
        !bytes_lt(a, a),
        bytes_lt(a, b) ==> !bytes_lt(b, a),
        bytes_lt(a, b) && bytes_lt(b, c) ==> bytes_lt(a, c),
        a != b ==> bytes_lt(a, b) || bytes_lt(b, a),
{
    lemma_lex_from_irreflexive_asym(a, a, 0);
    lemma_lex_from_irreflexive_asym(a, b, 0);
    if bytes_lt(a, b) && bytes_lt(b, c) {
        lemma_lex_from_trans(a, b, c, 0);
    }
    if a != b {
        assert(a.subrange(0, 0) =~= b.subrange(0, 0));
        lemma_lex_from_total(a, b, 0);
    }
}

/// The order on character sequences is a strict total order.
pub proof fn lemma_str_lt_order(a: Seq<char>, b: Seq<char>, c: Seq<char>)
    ensures
        !str_lt(a, a),
        str_lt(a, b) ==> !str_lt(b, a),
        str_lt(a, b) && str_lt(b, c) ==> str_lt(a, c),
        a != b ==> str_lt(a, b) || str_lt(b, a),
{
    let ea = vstd::utf8::encode_utf8(a);
    let eb = vstd::utf8::encode_utf8(b);
    let ec = vstd::utf8::encode_utf8(c);
    lemma_bytes_lt_order(ea, eb, ec);
    if a != b {
        vstd::utf8::encode_utf8_decode_utf8(a);
        vstd::utf8::encode_utf8_decode_utf8(b);
    }
}

/// Compares two strings in Rust's order for `str`.
pub fn str_less(a: &str, b: &str) -> (r: bool)
    ensures
        r == str_lt(a@, b@),
{
    let x = a.as_bytes();
    let y = b.as_bytes();
    let ghost sa = x@;
    let ghost sb = y@;
    let mut i: usize = 0;
    while i < x.len() && i < y.len()
        invariant
            x@ == sa,
            y@ == sb,
            sa == vstd::utf8::encode_utf8(a@),
            sb == vstd::utf8::encode_utf8(b@),
            i <= sa.len(),
            i <= sb.len(),
            bytes_lt(sa, sb) == lex_lt_from(sa, sb, i as int),
        decreases sa.len() - i,
    {
        if x[i] != y[i] {
            return x[i] < y[i];
        }
        i = i + 1;
    }
    i < y.len()
}

} // verus!

verus! {

/// `String::push`: appends one character to the string.
#[verifier::external_body]
pub(crate) fn push_char(s: &mut String, c: char)
    ensures
        final(s)@ == old(s)@.push(c),
{
    s.push(c);
}

/// The character of a decimal digit.
pub open spec fn digit_char(d: nat) -> char {
    if d == 0 { '0' }
    else if d == 1 { '1' }
    else if d == 2 { '2' }
    else if d == 3 { '3' }
    else if d == 4 { '4' }
    else if d == 5 { '5' }
    else if d == 6 { '6' }
    else if d == 7 { '7' }
    else if d == 8 { '8' }
    else { '9' }
}

/// The value of a decimal digit character, if it is one.
pub open spec fn digit_value(c: char) -> Option<nat> {
    if 48 <= (c as u32) && (c as u32) <= 57 { Some(((c as u32) - 48) as nat) } else { None }
}

/// The value of a string of decimal digits (`Some(0)` for no digits),
/// `None` if a character is not a digit.
pub open spec fn digits_value(d: Seq<char>) -> Option<nat>
    decreases d.len(),
{
    if d.len() == 0 {
        Some(0)
    } else {
        match (digits_value(d.drop_last()), digit_value(d.last())) {
            (Some(a), Some(b)) => Some(a * 10 + b),
            _ => None,
        }
    }
}

/// What `str::parse::<i64>` gives: an optional `+` or `-` sign followed by
/// at least one decimal digit, within the range of `i64`.
pub open spec fn spec_parse_i64(s: Seq<char>) -> Option<int> {
    let neg = s.len() > 0 && s[0] == '-';
    let digits = if s.len() > 0 && (s[0] == '-' || s[0] == '+') { s.drop_first() } else { s };
    if digits.len() == 0 {
        None
    } else {
        match digits_value(digits) {
            None => None,
            Some(v) => {
                let n: int = if neg { -v } else { v as int };
                if i64::MIN <= n && n <= i64::MAX { Some(n) } else { None }
            },
        }
    }
}

proof fn lemma_digits_monotone(d: Seq<char>, k: int)
    requires
        0 <= k <= d.len(),
        digits_value(d.take(k)) is Some,
        digits_value(d) is Some,
    ensures
        digits_value(d.take(k))->0 <= digits_value(d)->0,
    decreases d.len() - k,
{
    if k < d.len() {
        let t = d.take(k + 1);
        assert(t.drop_last() =~= d.take(k));
        if digits_value(t) is Some {
            lemma_digits_monotone(d, k + 1);
        } else {
            lemma_digits_none_extends(d, k + 1);
        }
    } else {
        assert(d.take(k) =~= d);
    }
}

proof fn lemma_digits_none_extends(d: Seq<char>, k: int)
    requires
        0 <= k <= d.len(),
        digits_value(d.take(k)) is None,
    ensures
        digits_value(d) is None,
    decreases d.len() - k,
{
    if k < d.len() {
        assert(d.take(k + 1).drop_last() =~= d.take(k));
        lemma_digits_none_extends(d, k + 1);
    } else {
        assert(d.take(k) =~= d);
    }
}

fn digit_of(c: char) -> (r: Option<u128>)
    ensures
        match digit_value(c) {
            Some(v) => r == Some(v as u128),
            None => r is None,
        },
{
    let u = c as u32;
    if 48 <= u && u <= 57 { Some((u - 48) as u128) } else { None }
}

/// Parses a signed decimal integer as `str::parse::<i64>` does.
pub fn parse_i64(s: &Vec<char>) -> (r: Option<i64>)
    ensures
        match r {
            Some(n) => spec_parse_i64(s@) == Some(n as int),
            None => spec_parse_i64(s@) is None,
        },
{
    let n = s.len();
    let neg = n > 0 && s[0] == '-';
    let start: usize = if n > 0 && (s[0] == '-' || s[0] == '+') { 1 } else { 0 };
    let ghost digits = s@.subrange(start as int, n as int);
    assert(digits =~= (if s@.len() > 0 && (s@[0] == '-' || s@[0] == '+') { s@.drop_first() } else { s@ }));
    if start == n {
        return None;
    }
    let limit: u128 = 9223372036854775808;
    let mut acc: u128 = 0;
    let mut i: usize = start;
    assert(digits.take(0) =~= Seq::<char>::empty());
    while i < n
        invariant
            start <= i <= n,
            n == s@.len(),
            digits == s@.subrange(start as int, n as int),
            digits == (if s@.len() > 0 && (s@[0] == '-' || s@[0] == '+') { s@.drop_first() } else { s@ }),
            digits.len() > 0,
            digits_value(digits.take(i - start)) == Some(acc as nat),
            acc <= limit,
            limit == 9223372036854775808,
        decreases n - i,
    {
        assert(digits.take(i - start + 1).drop_last() =~= digits.take(i - start));
        assert(digits[i - start] == s@[i as int]);
        match digit_of(s[i]) {
            None => {
                proof { lemma_digits_none_extends(digits, i - start + 1); }
                return None;
            },
            Some(d) => {
                let next = acc * 10 + d;
                if next > limit {
                    proof {
                        if digits_value(digits) is Some {
                            lemma_digits_monotone(digits, i - start + 1);
                        }
                    }
                    return None;
                }
                acc = next;
            },
        }
        i = i + 1;
    }
    assert(digits.take(n - start) =~= digits);
    if neg {
        if acc == limit {
            Some(i64::MIN)
        } else {
            Some(-(acc as i64))
        }
    } else if acc > 9223372036854775807 {
        None
    } else {
        Some(acc as i64)
    }
}

/// Decimal text of a natural number, without leading zeros.
pub open spec fn dec_text(n: nat) -> Seq<char>
    decreases n,
{
    if n < 10 {
        seq![digit_char(n)]
    } else {
        dec_text(n / 10).push(digit_char(n % 10))
    }
}

/// Decimal text of an integer, as Rust's `Display` writes it.
pub open spec fn int_text(n: int) -> Seq<char> {
    if n < 0 { seq!['-'] + dec_text((-n) as nat) } else { dec_text(n as nat) }
}

fn digit(d: u64) -> (c: char)
    requires
        d < 10,
    ensures
        c == digit_char(d as nat),
{
    if d == 0 { '0' }
    else if d == 1 { '1' }
    else if d == 2 { '2' }
    else if d == 3 { '3' }
    else if d == 4 { '4' }
    else if d == 5 { '5' }
    else if d == 6 { '6' }
    else if d == 7 { '7' }
    else if d == 8 { '8' }
    else { '9' }
}

/// Appends the decimal text of `n`.
pub fn push_dec(s: &mut String, n: u64)
    ensures
        final(s)@ == old(s)@ + dec_text(n as nat),
    decreases n,
{
    if n >= 10 {
        push_dec(s, n / 10);
    }
    push_char(s, digit(n % 10));
    assert(final(s)@ =~= old(s)@ + dec_text(n as nat));
}

/// Appends the decimal text of a signed integer.
pub fn push_int(s: &mut String, n: i64)
    ensures
        final(s)@ == old(s)@ + int_text(n as int),
{
    if n < 0 {
        push_char(s, '-');
        let m: u64 = if n == i64::MIN { 9223372036854775808u64 } else { (-n) as u64 };
        push_dec(s, m);
        assert(final(s)@ =~= old(s)@ + int_text(n as int));
    } else {
        push_dec(s, n as u64);
    }
}

/// Decimal text of a `usize`.
pub fn usize_text(n: usize) -> (s: String)
    ensures
        s@ == dec_text(n as nat),
{
    let mut s = String::new();
    push_dec(&mut s, n as u64);
    assert(s@ =~= dec_text(n as nat));
    s
}

/// Lower-case hexadecimal digit.
pub open spec fn hex_char(d: nat) -> char {
    if d < 10 { digit_char(d) }
    else if d == 10 { 'a' }
    else if d == 11 { 'b' }
    else if d == 12 { 'c' }
    else if d == 13 { 'd' }
    else if d == 14 { 'e' }
    else { 'f' }
}

/// Lower-case hexadecimal text of a byte string, two digits per byte.
pub open spec fn hex_text(b: Seq<u8>) -> Seq<char>
    decreases b.len(),
{
    if b.len() == 0 {
        Seq::empty()
    } else {
        hex_text(b.drop_last()) + seq![hex_char((b.last() / 16) as nat), hex_char((b.last() % 16) as nat)]
    }
}

/// A lower-case hexadecimal digit.
pub open spec fn is_lower_hex(c: char) -> bool {
    ('0' <= c && c <= '9') || ('a' <= c && c <= 'f')
}

/// Hex text has two lower-case hex digits per byte.
pub proof fn lemma_hex_text_shape(b: Seq<u8>)
    ensures
        hex_text(b).len() == 2 * b.len(),
        forall|i: int| 0 <= i < hex_text(b).len() ==> is_lower_hex(#[trigger] hex_text(b)[i]),
    decreases b.len(),
{
    if b.len() > 0 {
        let init = b.drop_last();
        lemma_hex_text_shape(init);
        let x = b.last();
        let h = (x / 16) as nat;
        let l = (x % 16) as nat;
        assert(is_lower_hex(hex_char(h)) && is_lower_hex(hex_char(l))) by {
            assert(is_lower_hex(digit_char(h)) || h >= 10);
            assert(is_lower_hex(digit_char(l)) || l >= 10);
        }
        assert forall|i: int| 0 <= i < hex_text(b).len() implies is_lower_hex(#[trigger] hex_text(b)[i]) by {
            if i < hex_text(init).len() {
                assert(hex_text(b)[i] == hex_text(init)[i]);
            }
        }
    }
}

fn hex(d: u8) -> (c: char)
    requires
        d < 16,
    ensures
        c == hex_char(d as nat),
{
    if d < 10 { digit(d as u64) }
    else if d == 10 { 'a' }
    else if d == 11 { 'b' }
    else if d == 12 { 'c' }
    else if d == 13 { 'd' }
    else if d == 14 { 'e' }
    else { 'f' }
}

/// Lower-case hexadecimal text of bytes, as `format!("{:x}", ..)` writes a digest.
pub fn to_hex(b: &[u8]) -> (s: String)
    ensures
        s@ == hex_text(b@),
{
    let mut s = String::new();
    let mut i: usize = 0;
    while i < b.len()
        invariant
            i <= b@.len(),
            s@ == hex_text(b@.take(i as int)),
        decreases b@.len() - i,
    {
        let x = b[i];
        push_char(&mut s, hex(x / 16));
        push_char(&mut s, hex(x % 16));
        assert(b@.take(i + 1).drop_last() =~= b@.take(i as int));
        i = i + 1;
    }
    assert(b@.take(b@.len() as int) =~= b@);
    s
}

} // verus!
