//! The JSON text of the values that event payloads carry, as serde_json
//! writes it.

use vstd::prelude::*;

verus! {

/// The lowercase hexadecimal digit of `n` (`0 <= n < 16`).
pub open spec fn hex_digit(n: int) -> char {
    if n < 10 {
        (0x30 + n) as char
    } else {
        (0x61 + n - 10) as char
    }
}

/// How serde_json writes one character inside a JSON string: `"` and `\`
/// and the control characters below U+0020 are escaped (the five with a
/// short form as `\b \t \n \f \r`, the others as `\u00XX` with lowercase
/// hex digits); every other character stands for itself.
pub open spec fn json_escape_char(c: char) -> Seq<char> {
    if c == '"' {
        seq!['\\', '"']
    } else if c == '\\' {
        seq!['\\', '\\']
    } else if c == '\x08' {
        seq!['\\', 'b']
    } else if c == '\t' {
        seq!['\\', 't']
    } else if c == '\n' {
        seq!['\\', 'n']
    } else if c == '\x0c' {
        seq!['\\', 'f']
    } else if c == '\r' {
        seq!['\\', 'r']
    } else if (c as u32) < 0x20 {
        seq!['\\', 'u', '0', '0', hex_digit((c as int) / 16), hex_digit((c as int) % 16)]
    } else {
        seq![c]
    }
}

/// The escaped characters of `s`, one after the other.
pub open spec fn json_escape(s: Seq<char>) -> Seq<char>
    decreases s.len(),
{
    if s.len() == 0 {
        Seq::empty()
    } else {
        json_escape_char(s[0]) + json_escape(s.drop_first())
    }
}

/// A JSON string literal holding `s`.
pub open spec fn json_string(s: Seq<char>) -> Seq<char> {
    seq!['"'] + json_escape(s) + seq!['"']
}

/// The decimal digit of `n` (`0 <= n < 10`).
pub open spec fn decimal_digit(n: int) -> char {
    (0x30 + n) as char
}

/// The decimal digits of `n`, without leading zeros.
pub open spec fn nat_decimal(n: nat) -> Seq<char>
    decreases n,
{
    if n < 10 {
        seq![decimal_digit(n as int)]
    } else {
        nat_decimal(n / 10) + seq![decimal_digit((n % 10) as int)]
    }
}

/// An integer in decimal, with a leading `-` when it is negative.
pub open spec fn int_decimal(n: int) -> Seq<char> {
    if n < 0 {
        seq!['-'] + nat_decimal((-n) as nat)
    } else {
        nat_decimal(n as nat)
    }
}

/// The JSON string literal of `s`: `serde_json::Value::String` written with
/// its `Display` impl (the compact serializer, which escapes as
/// `json_escape_char` says).
#[verifier::external_body]
pub(crate) fn json_string_of(s: &str) -> (res: String)
    ensures
        res@ == json_string(s@),
{
    serde_json::Value::String(s.to_string()).to_string()
}

/// The JSON text of an integer: `serde_json::Value::from` an `i32` (a
/// `Number`) written with its `Display` impl, which writes integers in
/// plain decimal.
#[verifier::external_body]
pub(crate) fn json_int_of(n: i32) -> (res: String)
    ensures
        res@ == int_decimal(n as int),
{
    serde_json::Value::from(n).to_string()
}


/// The value of a hexadecimal digit (either case).
pub open spec fn hex_value(c: char) -> int {
    if '0' <= c <= '9' {
        c as int - 0x30
    } else if 'a' <= c <= 'f' {
        c as int - 0x61 + 10
    } else {
        c as int - 0x41 + 10
    }
}

/// Reading back the inside of a JSON string literal: `\uXXXX` stands for
/// the character with those four hex digits, `\b \f \n \r \t` for their
/// control characters, `\` before any other character for that character,
/// and every other character for itself.
pub open spec fn json_unescape(s: Seq<char>) -> Seq<char>
    decreases s.len(),
{
    if s.len() == 0 {
        Seq::empty()
    } else if s[0] == '\\' && s.len() >= 6 && s[1] == 'u' {
        seq![
            (hex_value(s[2]) * 4096 + hex_value(s[3]) * 256 + hex_value(s[4]) * 16 + hex_value(
                s[5],
            )) as char,
        ] + json_unescape(s.skip(6))
    } else if s[0] == '\\' && s.len() >= 2 {
        let e = s[1];
        seq![
            if e == 'b' {
                '\x08'
            } else if e == 'f' {
                '\x0c'
            } else if e == 'n' {
                '\n'
            } else if e == 'r' {
                '\r'
            } else if e == 't' {
                '\t'
            } else {
                e
            },
        ] + json_unescape(s.skip(2))
    } else {
        seq![s[0]] + json_unescape(s.drop_first())
    }
}

proof fn lemma_hex_digit(n: int)
    requires
        0 <= n < 16,
    ensures
        hex_value(hex_digit(n)) == n,
{
    let c = hex_digit(n);
    if n < 10 {
        assert(c as int == 0x30 + n);
    } else {
        assert(c as int == 0x61 + n - 10);
    }
}

proof fn lemma_unescape_char(c: char, r: Seq<char>)
    ensures
        json_unescape(json_escape_char(c) + r) == seq![c] + json_unescape(r),
{
    let e = json_escape_char(c);
    let s = e + r;
    assert(s.skip(e.len() as int) =~= r);
    if e.len() == 1 {
        assert(s[0] == c);
        assert(c != '\\');
        assert(s.drop_first() =~= r);
    } else if e.len() == 2 {
        assert(s[0] == '\\');
        assert(s[1] == e[1]);
    } else {
        let v = c as int;
        assert(v < 0x20);
        lemma_hex_digit(v / 16);
        lemma_hex_digit(v % 16);
        assert(s[1] == 'u');
        assert(s[2] == '0');
        assert(s[3] == '0');
        assert(s[4] == hex_digit(v / 16));
        assert(s[5] == hex_digit(v % 16));
        assert(hex_value('0') == 0);
        assert((v / 16) * 16 + v % 16 == v);
        let w: u32 = c as u32;
        vstd::utf8::char_u32_cast(c, w);
        assert((v as char) == c);
    }
}

/// Reading back what `json_escape` writes gives the text again: no
/// character is lost, added or changed.
pub proof fn law_json_escape_round_trip(t: Seq<char>)
    ensures
        json_unescape(json_escape(t)) == t,
    decreases t.len(),
{
    if t.len() > 0 {
        lemma_unescape_char(t[0], json_escape(t.drop_first()));
        law_json_escape_round_trip(t.drop_first());
        assert(seq![t[0]] + t.drop_first() =~= t);
    }
}

} // verus!
