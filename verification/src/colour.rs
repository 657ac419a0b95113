//! Padding colours and their textual forms.

use vstd::prelude::*;
use vstd::string::*;
use crate::text::{chars_of, digit, digit_value, eq_ignore_ascii_case, is_digit, lower_text, push_char};

verus! {

/// An RGBA colour, eight bits per channel.
#[derive(Debug, Clone, Copy, PartialEq, Eq, Structural)]
pub struct Colour {
    pub r: u8,
    pub g: u8,
    pub b: u8,
    pub a: u8,
}

/// Opaque black, the padding colour used when none is configured.
pub open spec fn spec_black() -> Colour {
    Colour { r: 0, g: 0, b: 0, a: 0xff }
}

/// Opaque white.
pub open spec fn spec_white() -> Colour {
    Colour { r: 0xff, g: 0xff, b: 0xff, a: 0xff }
}

/// Opaque black.
#[verifier::when_used_as_spec(spec_black)]
pub fn black() -> (c: Colour)
    ensures
        c == spec_black(),
{
    Colour { r: 0, g: 0, b: 0, a: 0xff }
}

/// Opaque white.
#[verifier::when_used_as_spec(spec_white)]
pub fn white() -> (c: Colour)
    ensures
        c == spec_white(),
{
    Colour { r: 0xff, g: 0xff, b: 0xff, a: 0xff }
}

/// The value of a hexadecimal digit of either case, or -1 for any other character.
pub open spec fn hex_value(c: char) -> int {
    if is_digit(c) {
        digit_value(c)
    } else if c == 'a' || c == 'A' {
        10
    } else if c == 'b' || c == 'B' {
        11
    } else if c == 'c' || c == 'C' {
        12
    } else if c == 'd' || c == 'D' {
        13
    } else if c == 'e' || c == 'E' {
        14
    } else if c == 'f' || c == 'F' {
        15
    } else {
        -1
    }
}

/// The lower-case hexadecimal digit for a value below sixteen.
pub open spec fn hex_digit(v: int) -> char {
    if v < 10 {
        digit(v)
    } else if v == 10 {
        'a'
    } else if v == 11 {
        'b'
    } else if v == 12 {
        'c'
    } else if v == 13 {
        'd'
    } else if v == 14 {
        'e'
    } else {
        'f'
    }
}

/// Six hexadecimal digits of either case.
pub open spec fn is_hex6(s: Seq<char>) -> bool {
    s.len() == 6 && forall|i: int| 0 <= i < 6 ==> hex_value(#[trigger] s[i]) >= 0
}

/// What a colour name or `RRGGBB` string denotes, if anything. Letters match
/// in either case and the alpha channel of every parsed colour is opaque.
pub open spec fn colour_of(s: Seq<char>) -> Option<Colour> {
    if lower_text(s) == seq!['b', 'l', 'a', 'c', 'k'] {
        Some(spec_black())
    } else if lower_text(s) == seq!['w', 'h', 'i', 't', 'e'] {
        Some(spec_white())
    } else if is_hex6(s) {
        Some(
            Colour {
                r: (hex_value(s[0]) * 16 + hex_value(s[1])) as u8,
                g: (hex_value(s[2]) * 16 + hex_value(s[3])) as u8,
                b: (hex_value(s[4]) * 16 + hex_value(s[5])) as u8,
                a: 0xff,
            },
        )
    } else {
        None
    }
}

/// The textual form of a colour: `black`, `white`, or six lower-case
/// hexadecimal digits. The alpha channel is not written.
pub open spec fn colour_text(c: Colour) -> Seq<char> {
    if c.r == 0 && c.g == 0 && c.b == 0 {
        seq!['b', 'l', 'a', 'c', 'k']
    } else if c.r == 0xff && c.g == 0xff && c.b == 0xff {
        seq!['w', 'h', 'i', 't', 'e']
    } else {
        seq![
            hex_digit(c.r as int / 16),
            hex_digit(c.r as int % 16),
            hex_digit(c.g as int / 16),
            hex_digit(c.g as int % 16),
            hex_digit(c.b as int / 16),
            hex_digit(c.b as int % 16),
        ]
    }
}

fn hex_value_of(c: char) -> (v: Option<u8>)
    ensures
        match v {
            Some(x) => hex_value(c) == x as int && x < 16,
            None => hex_value(c) == -1,
        },
{
    if c == '0' {
        Some(0)
    } else if c == '1' {
        Some(1)
    } else if c == '2' {
        Some(2)
    } else if c == '3' {
        Some(3)
    } else if c == '4' {
        Some(4)
    } else if c == '5' {
        Some(5)
    } else if c == '6' {
        Some(6)
    } else if c == '7' {
        Some(7)
    } else if c == '8' {
        Some(8)
    } else if c == '9' {
        Some(9)
    } else if c == 'a' || c == 'A' {
        Some(10)
    } else if c == 'b' || c == 'B' {
        Some(11)
    } else if c == 'c' || c == 'C' {
        Some(12)
    } else if c == 'd' || c == 'D' {
        Some(13)
    } else if c == 'e' || c == 'E' {
        Some(14)
    } else if c == 'f' || c == 'F' {
        Some(15)
    } else {
        None
    }
}

fn hex_digit_of(v: u8) -> (c: char)
    requires
        v < 16,
    ensures
        c == hex_digit(v as int),
{
    if v == 0 {
        '0'
    } else if v == 1 {
        '1'
    } else if v == 2 {
        '2'
    } else if v == 3 {
        '3'
    } else if v == 4 {
        '4'
    } else if v == 5 {
        '5'
    } else if v == 6 {
        '6'
    } else if v == 7 {
        '7'
    } else if v == 8 {
        '8'
    } else if v == 9 {
        '9'
    } else if v == 10 {
        'a'
    } else if v == 11 {
        'b'
    } else if v == 12 {
        'c'
    } else if v == 13 {
        'd'
    } else if v == 14 {
        'e'
    } else {
        'f'
    }
}

/// Parses `black`, `white` or `RRGGBB`, ignoring case.
#[verifier::loop_isolation(false)]
pub fn string_to_colour(s: &str) -> (c: Option<Colour>)
    ensures
        c == colour_of(s@),
{
    let v = chars_of(s);
    proof {
        reveal_strlit("black");
        reveal_strlit("white");
        assert("black"@ =~= seq!['b', 'l', 'a', 'c', 'k']);
        assert("white"@ =~= seq!['w', 'h', 'i', 't', 'e']);
        assert(lower_text("black"@) =~= "black"@);
        assert(lower_text("white"@) =~= "white"@);
    }
    if eq_ignore_ascii_case(&v, "black") {
        assert(lower_text(s@) =~= seq!['b', 'l', 'a', 'c', 'k']);
        return Some(black());
    }
    if eq_ignore_ascii_case(&v, "white") {
        assert(lower_text(s@) =~= seq!['w', 'h', 'i', 't', 'e']);
        return Some(white());
    }
    if v.len() != 6 {
        return None;
    }
    let mut vals: Vec<u8> = Vec::new();
    let mut i: usize = 0;
    while i < 6
        invariant
            i <= 6,
            v@.len() == 6,
            vals@.len() == i,
            forall|j: int| 0 <= j < i ==> hex_value(#[trigger] v@[j]) == vals@[j] as int && vals@[j] < 16,
        decreases 6 - i,
    {
        match hex_value_of(v[i]) {
            Some(x) => {
                vals.push(x);
            },
            None => {
                assert(hex_value(s@[i as int]) < 0);
                return None;
            },
        }
        i = i + 1;
    }
    Some(
        Colour {
            r: vals[0] * 16 + vals[1],
            g: vals[2] * 16 + vals[3],
            b: vals[4] * 16 + vals[5],
            a: 0xff,
        },
    )
}

/// Writes a colour as `black`, `white` or six lower-case hexadecimal digits.
pub fn colour_to_string(c: Colour) -> (s: String)
    ensures
        s@ == colour_text(c),
{
    proof {
        reveal_strlit("black");
        reveal_strlit("white");
    }
    if c.r == 0 && c.g == 0 && c.b == 0 {
        let s = String::from_str("black");
        assert(s@ =~= colour_text(c));
        s
    } else if c.r == 0xff && c.g == 0xff && c.b == 0xff {
        let s = String::from_str("white");
        assert(s@ =~= colour_text(c));
        s
    } else {
        let mut s = String::new();
        push_char(&mut s, hex_digit_of(c.r / 16));
        push_char(&mut s, hex_digit_of(c.r % 16));
        push_char(&mut s, hex_digit_of(c.g / 16));
        push_char(&mut s, hex_digit_of(c.g % 16));
        push_char(&mut s, hex_digit_of(c.b / 16));
        push_char(&mut s, hex_digit_of(c.b % 16));
        assert(s@ =~= colour_text(c));
        s
    }
}

} // verus!
